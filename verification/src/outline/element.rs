//! What an outline is made of.

use vstd::prelude::*;

verus! {

/// Types of outline elements.
#[derive(Debug, PartialEq, Eq)]
pub enum ElementKind {
    Heading { level: u8 },
    CodeBlock { language: Option<Vec<u8>> },
    Blockquote,
    Table,
    Image { alt: Vec<u8> },
    Paragraph,
    Include { is_system: bool },
    FunctionDeclaration,
    FunctionDefinition,
}

/// What an [`ElementKind`] stands for.
pub ghost enum Kind {
    Heading { level: int },
    CodeBlock { language: Option<Seq<u8>> },
    Blockquote,
    Table,
    Image { alt: Seq<u8> },
    Paragraph,
    Include { is_system: bool },
    FunctionDeclaration,
    FunctionDefinition,
}

impl View for ElementKind {
    type V = Kind;

    open spec fn view(&self) -> Kind {
        match self {
            ElementKind::Heading { level } => Kind::Heading { level: *level as int },
            ElementKind::CodeBlock { language } => Kind::CodeBlock {
                language: match language {
                    Some(language) => Some(language@),
                    None => None,
                },
            },
            ElementKind::Blockquote => Kind::Blockquote,
            ElementKind::Table => Kind::Table,
            ElementKind::Image { alt } => Kind::Image { alt: alt@ },
            ElementKind::Paragraph => Kind::Paragraph,
            ElementKind::Include { is_system } => Kind::Include { is_system: *is_system },
            ElementKind::FunctionDeclaration => Kind::FunctionDeclaration,
            ElementKind::FunctionDefinition => Kind::FunctionDefinition,
        }
    }
}

/// One outline element by itself: what it is, what it is called, and where it stands.
pub ghost struct Entry {
    pub kind: Kind,
    pub name: Seq<u8>,
    pub line_number: int,
    pub byte_offset: int,
    pub byte_length: int,
    pub line_count: int,
}

impl Entry {
    /// One past the last byte the element covers.
    pub open spec fn end(self) -> int {
        self.byte_offset + self.byte_length
    }

    /// One past the last line the element covers.
    pub open spec fn next_line(self) -> int {
        self.line_number + self.line_count
    }
}

/// An element and the blocks that stand under it.
pub ghost struct Outlined {
    pub head: Entry,
    pub children: Seq<Entry>,
}

/// An outline element with its position.
#[derive(Debug)]
pub struct OutlineElement {
    pub kind: ElementKind,
    pub name: Vec<u8>,
    pub line_number: usize,
    pub byte_offset: usize,
    pub byte_length: usize,
    pub line_count: usize,
    /// The blocks under a heading, which have none of their own.
    pub children: Vec<OutlineElement>,
}

impl OutlineElement {
    /// The element by itself.
    pub open spec fn entry(&self) -> Entry {
        Entry {
            kind: self.kind@,
            name: self.name@,
            line_number: self.line_number as int,
            byte_offset: self.byte_offset as int,
            byte_length: self.byte_length as int,
            line_count: self.line_count as int,
        }
    }

    /// A block under a heading has no blocks of its own, covers at least one line, and ends where
    /// a number can say so.
    pub open spec fn wf(&self) -> bool {
        &&& self.placed()
        &&& forall|i: int|
            0 <= i < self.children@.len() ==> (#[trigger] self.children@[i]).placed()
                && self.children@[i].children@.len() == 0
    }

    pub open spec fn placed(&self) -> bool {
        &&& self.line_count >= 1
        &&& self.line_number + self.line_count - 1 <= usize::MAX
    }

    pub fn new(
        kind: ElementKind,
        name: Vec<u8>,
        line_number: usize,
        byte_offset: usize,
    ) -> (element: Self)
        ensures
            element.entry() == (Entry {
                kind: kind@,
                name: name@,
                line_number: line_number as int,
                byte_offset: byte_offset as int,
                byte_length: 0,
                line_count: 1,
            }),
            element.children@.len() == 0,
    {
        OutlineElement {
            kind,
            name,
            line_number,
            byte_offset,
            byte_length: 0,
            line_count: 1,
            children: Vec::new(),
        }
    }

    pub fn with_length(self, byte_length: usize, line_count: usize) -> (element: Self)
        ensures
            element.entry() == (Entry {
                byte_length: byte_length as int,
                line_count: line_count as int,
                ..self.entry()
            }),
            element.children == self.children,
    {
        OutlineElement {
            kind: self.kind,
            name: self.name,
            line_number: self.line_number,
            byte_offset: self.byte_offset,
            byte_length,
            line_count,
            children: self.children,
        }
    }
}

impl View for OutlineElement {
    type V = Outlined;

    open spec fn view(&self) -> Outlined {
        Outlined {
            head: self.entry(),
            children: self.children@.map_values(|child: OutlineElement| child.entry()),
        }
    }
}

/// What a list of elements stands for.
pub open spec fn outlined(elements: Seq<OutlineElement>) -> Seq<Outlined> {
    elements.map_values(|element: OutlineElement| element@)
}

/// Whether every element of a list is well formed.
pub open spec fn all_wf(elements: Seq<OutlineElement>) -> bool {
    forall|i: int| 0 <= i < elements.len() ==> (#[trigger] elements[i]).wf()
}

/// The elements once one more is recorded, under the section where there is one.
pub open spec fn pushed(elements: Seq<Outlined>, section: Option<int>, entry: Entry) -> Seq<
    Outlined,
> {
    match section {
        Some(index) => elements.update(
            index,
            Outlined {
                head: elements[index].head,
                children: elements[index].children.push(entry),
            },
        ),
        None => elements.push(Outlined { head: entry, children: Seq::empty() }),
    }
}

/// The section a list of elements is in.
pub open spec fn section_of(section: Option<usize>) -> Option<int> {
    match section {
        Some(index) => Some(index as int),
        None => None,
    }
}

/// Record an element under the current section, or at the top level when there is none.
pub fn push_element(
    elements: &mut Vec<OutlineElement>,
    section: Option<usize>,
    element: OutlineElement,
)
    requires
        section matches Some(index) ==> index < old(elements)@.len(),
        all_wf(old(elements)@),
        element.placed(),
        element.children@.len() == 0,
    ensures
        outlined(final(elements)@) == pushed(
            outlined(old(elements)@),
            section_of(section),
            element.entry(),
        ),
        all_wf(final(elements)@),
        final(elements)@.len() >= old(elements)@.len(),
{
    match section {
        Some(index) => {
            let ghost entry = element.entry();
            let ghost before = elements@[index as int];
            elements[index].children.push(element);
            proof {
                let after = elements@[index as int];
                assert(after.children@.map_values(|child: OutlineElement| child.entry())
                    =~= before.children@.map_values(|child: OutlineElement| child.entry()).push(
                    entry,
                ));
                assert(outlined(elements@) =~= pushed(
                    outlined(old(elements)@),
                    section_of(section),
                    entry,
                ));
                assert forall|i: int| 0 <= i < elements@.len() implies (
                #[trigger] elements@[i]).wf() by {
                    assert(old(elements)@[i].wf());
                    if i == index {
                        assert forall|j: int| 0 <= j < after.children@.len() implies (
                        #[trigger] after.children@[j]).placed() && after.children@[j].children@.len()
                            == 0 by {
                            if j < before.children@.len() {
                                assert(after.children@[j] == before.children@[j]);
                            }
                        }
                    }
                }
            }
        },
        None => {
            assert(element@ == (Outlined { head: element.entry(), children: Seq::empty() })) by {
                assert(element.children@.map_values(|child: OutlineElement| child.entry())
                    =~= Seq::empty());
            }
            elements.push(element);
            assert(outlined(elements@) =~= pushed(outlined(old(elements)@), None, element.entry()));
        },
    }
}

} // verus!
