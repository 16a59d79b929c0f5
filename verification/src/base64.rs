//! What a reader of base64 gets back.

use vstd::prelude::*;

use crate::json::{base64, base64_symbol};

verus! {

/// What a symbol of base64 stands for, `=` standing for nothing.
pub open spec fn symbol_value(symbol: u8) -> int {
    if 'A' as u8 <= symbol <= 'Z' as u8 {
        symbol - 'A' as u8
    } else if 'a' as u8 <= symbol <= 'z' as u8 {
        26 + (symbol - 'a' as u8)
    } else if '0' as u8 <= symbol <= '9' as u8 {
        52 + (symbol - '0' as u8)
    } else if symbol == '+' as u8 {
        62
    } else if symbol == '/' as u8 {
        63
    } else {
        0
    }
}

/// The bytes that four symbols stand for, a byte fewer for each `=` among them.
#[verifier::opaque]
pub open spec fn four_symbols(text: Seq<u8>) -> Seq<u8> {
    let bits = symbol_value(text[0]) * 0x40000 + symbol_value(text[1]) * 0x1000 + symbol_value(
        text[2],
    ) * 0x40 + symbol_value(text[3]);
    let bytes = seq![(bits / 0x10000) as u8, (bits / 0x100 % 0x100) as u8, (bits % 0x100) as u8];
    if text[2] == '=' as u8 {
        bytes.take(1)
    } else if text[3] == '=' as u8 {
        bytes.take(2)
    } else {
        bytes
    }
}

/// What a reader of base64 gets back.
pub open spec fn unbase64(text: Seq<u8>) -> Seq<u8>
    decreases text.len(),
{
    if text.len() < 4 {
        Seq::empty()
    } else {
        four_symbols(text.take(4)) + unbase64(text.skip(4))
    }
}

proof fn lemma_symbol(value: int)
    requires
        0 <= value < 64,
    ensures
        symbol_value(base64_symbol(value)) == value,
        base64_symbol(value) != '=' as u8,
{
}

proof fn lemma_bits(bits: int)
    requires
        0 <= bits < 0x100_0000,
    ensures
        bits / 0x40000 * 0x40000 + bits / 0x1000 % 64 * 0x1000 + bits / 0x40 % 64 * 0x40 + bits % 64
            == bits,
        0 <= bits / 0x40000 < 64,
{
}

proof fn lemma_bytes(a: u8, b: u8, c: u8)
    ensures
        ({
            let bits = a as int * 0x10000 + b as int * 0x100 + c as int;
            &&& 0 <= bits < 0x100_0000
            &&& bits / 0x10000 == a
            &&& bits / 0x100 % 0x100 == b
            &&& bits % 0x100 == c
            &&& c == 0 ==> bits % 64 == 0
            &&& b == 0 && c == 0 ==> bits / 0x40 % 64 == 0
        }),
{
}

/// Four symbols read back, the last of them or the last two taken by padding.
#[verifier::spinoff_prover]
proof fn lemma_four(a: u8, b: u8, c: u8, text: Seq<u8>, bytes: int)
    requires
        1 <= bytes <= 3,
        text.len() == 4,
        bytes < 3 ==> c == 0,
        bytes < 2 ==> b == 0,
        ({
            let bits = a as int * 0x10000 + b as int * 0x100 + c as int;
            &&& text[0] == base64_symbol(bits / 0x40000)
            &&& text[1] == base64_symbol(bits / 0x1000 % 64)
            &&& text[2] == if bytes > 1 {
                base64_symbol(bits / 0x40 % 64)
            } else {
                0x3D
            }
            &&& text[3] == if bytes > 2 {
                base64_symbol(bits % 64)
            } else {
                0x3D
            }
        }),
    ensures
        four_symbols(text) == seq![a, b, c].take(bytes),
{
    reveal(four_symbols);
    let bits = a as int * 0x10000 + b as int * 0x100 + c as int;
    lemma_bytes(a, b, c);
    lemma_bits(bits);
    lemma_symbol(bits / 0x40000);
    lemma_symbol(bits / 0x1000 % 64);
    lemma_symbol(bits / 0x40 % 64);
    lemma_symbol(bits % 64);
    assert(symbol_value(0x3D) == 0);
    assert(symbol_value(text[0]) * 0x40000 + symbol_value(text[1]) * 0x1000 + symbol_value(text[2])
        * 0x40 + symbol_value(text[3]) == bits);
    assert(four_symbols(text) =~= seq![a, b, c].take(bytes));
}

/// One byte at the end of the data.
proof fn lemma_one(data: Seq<u8>)
    requires
        data.len() == 1,
    ensures
        base64(data).len() == 4,
        four_symbols(base64(data)) == data,
{
    let text = base64(data);
    assert(text.len() == 4);
    lemma_four(data[0], 0, 0, text, 1);
    assert(seq![data[0], 0u8, 0u8].take(1) =~= data);
}

/// Two bytes at the end of the data.
proof fn lemma_two(data: Seq<u8>)
    requires
        data.len() == 2,
    ensures
        base64(data).len() == 4,
        four_symbols(base64(data)) == data,
{
    let text = base64(data);
    assert(text.len() == 4);
    lemma_four(data[0], data[1], 0, text, 2);
    assert(seq![data[0], data[1], 0u8].take(2) =~= data);
}

/// Three bytes at the front of the data.
proof fn lemma_three(data: Seq<u8>)
    requires
        data.len() >= 3,
    ensures
        base64(data).len() == 4 + base64(data.subrange(3, data.len() as int)).len(),
        base64(data).skip(4) == base64(data.subrange(3, data.len() as int)),
        four_symbols(base64(data).take(4)) == data.take(3),
{
    let text = base64(data);
    let rest = base64(data.subrange(3, data.len() as int));
    assert(text.len() == 4 + rest.len());
    assert(text.skip(4) =~= rest);
    lemma_four(data[0], data[1], data[2], text.take(4), 3);
    assert(seq![data[0], data[1], data[2]].take(3) =~= data.take(3));
}

/// Bytes that are no text read back from the base64 that stands for them, which is padded to groups of
/// four symbols.
#[verifier::spinoff_prover]
pub proof fn base64_reads_back(data: Seq<u8>)
    ensures
        unbase64(base64(data)) == data,
        base64(data).len() % 4 == 0,
    decreases data.len(),
{
    if data.len() == 0 {
        assert(base64(data).len() == 0);
        assert(unbase64(base64(data)) =~= data);
    } else if data.len() <= 2 {
        if data.len() == 1 {
            lemma_one(data);
        } else {
            lemma_two(data);
        }
        lemma_alone(base64(data), data);
    } else {
        let rest = data.subrange(3, data.len() as int);
        base64_reads_back(rest);
        lemma_three(data);
        assert(data.take(3) + rest =~= data);
    }
}

proof fn lemma_alone(text: Seq<u8>, data: Seq<u8>)
    requires
        text.len() == 4,
        four_symbols(text) == data,
    ensures
        unbase64(text) == data,
{
    assert(text.take(4) =~= text);
    assert(text.skip(4).len() == 0);
    assert(unbase64(text.skip(4)) =~= Seq::empty());
    assert(data + Seq::<u8>::empty() =~= data);
}

} // verus!
