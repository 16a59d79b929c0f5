//! Approximate search: vocabularies, folds, spans and reports.

use sztools::fuzzy::edits::{edits_of, is_better, Derivation};
use sztools::fuzzy::effort::{Alphabet, Dictionary, Effort, Folding};
use sztools::fuzzy::folds::Fold;
use sztools::fuzzy::keyboards::Keyboard;
use sztools::fuzzy::misspellings::{known_languages, variants_of};
use sztools::fuzzy::options::{
    parse_case_sensitivity, resolve_folds, resolve_keyboard, resolve_positionals, validate, Args,
    CaseSensitivity, Cost, Device, Field, Format, SearchConfig, Show,
};
use sztools::fuzzy::report::{
    build_vocabulary, rank, report_input, search_lines, write_summary, Outcome, OutputConfig,
    Survivor,
};
use sztools::fuzzy::rewrites::{
    covers, in_reading_order, sites_of, Edge, Found, Located, Rewrites, Site, StageMap,
};
use sztools::fuzzy::script::Script;
use sztools::fuzzy::vocabulary::Vocabulary;
use sztools::json::Terminator;
use sztools::status::{Failure, Status};

/// A table of keyboards: the Latin one key by key, and one key of every other layout.
fn keyboards() -> String {
    let rows = ["qwertyuiop", "asdfghjkl", "zxcvbnm"];
    let mut table = String::new();
    for (row, keys) in rows.iter().enumerate() {
        for (column, key) in keys.char_indices() {
            let mut near: Vec<char> = Vec::new();
            for (other, others) in rows.iter().enumerate() {
                for (at, candidate) in others.char_indices() {
                    let beside = other == row && at.abs_diff(column) == 1;
                    let below = other == row + 1 && (at == column || at + 1 == column);
                    let above = other + 1 == row && (at == column || at == column + 1);
                    if beside || below || above {
                        near.push(candidate);
                    }
                }
            }
            let near: String = near.into_iter().collect();
            table.push_str(&format!("us\t{key}\t{near}\n"));
        }
    }
    for layout in ["de\tö\tlä", "fr\tà\té", "ru\tй\tцф", "gr\tα\tσ", "am\tա\tբ"] {
        table.push_str(layout);
        table.push('\n');
    }
    for script in Script::all() {
        if !table.contains(&format!("{}\t", script.layout())) {
            table.push_str(&format!("{}\tא\tב\n", script.layout()));
        }
    }
    table
}

/// A table of folds that carries every transform a search may name.
fn folds() -> String {
    let mut table = String::from(
        "Latin-ASCII\té\te\nLatin-ASCII\tü\tu\nLatin-Phonetic\tph\tf\nLatin-Phonetic\tc\tk\n",
    );
    for script in Script::all() {
        if let Some(transform) = script.transliteration() {
            table.push_str(&format!("{transform}\tx\ty\n"));
        }
    }
    table
}

const MISSPELLINGS: &str = "en\tcollor\tcolor\nen\tcolr\tcolor\nen\tthier\ttheir\nen\tcollor\tcolor\n";

fn us() -> Keyboard {
    Keyboard::load(&keyboards(), "us")
}

fn ball(pattern: &str, max_distance: usize, alphabet: Alphabet) -> Vocabulary {
    Vocabulary::build(
        &[pattern.to_string()],
        max_distance,
        alphabet,
        &us(),
        Dictionary::Ignored,
        MISSPELLINGS,
    )
}

fn args() -> Args {
    Args {
        pattern: Some("a".to_string()),
        inputs: Vec::new(),
        extra: Vec::new(),
        effort: None,
        max_distance: None,
        cost: None,
        layout: None,
        fold: Vec::new(),
        dictionary: None,
        top_k: None,
        device: None,
        threads: None,
        gpu_id: None,
        ignore_case: None,
        fields: Vec::new(),
        utf8: false,
        show: None,
        summary: false,
        format: None,
        null: false,
        quiet: false,
    }
}

#[test]
fn reads_one_file_without_waiting_on_stdin() {
    // The positional is a path once `--pattern` carries the needle, so the input list must not
    // fall back to stdin beside it.
    let positionals = |pattern: Option<&str>, extra: &[&str]| {
        let extra: Vec<String> = extra.iter().map(|text| text.to_string()).collect();
        resolve_positionals(pattern, &extra, &[]).unwrap()
    };
    let (patterns, inputs) = positionals(Some("file.txt"), &["abc"]);
    assert_eq!(patterns, ["abc"]);
    assert_eq!(inputs, ["file.txt"]);
    // With no positional at all, stdin is still the input.
    assert_eq!(positionals(None, &["abc"]).1, ["-"]);
    assert!(resolve_positionals(None, &[], &[]).is_err());
}

#[test]
fn rejects_settings_that_used_to_be_ignored() {
    assert!(validate(&Args {
        gpu_id: Some(1),
        ..args()
    })
    .is_err());
    assert!(validate(&Args {
        device: Some(Device::Cpu),
        gpu_id: Some(1),
        ..args()
    })
    .is_err());
    assert!(validate(&Args {
        device: Some(Device::Gpu),
        gpu_id: Some(1),
        ..args()
    })
    .is_ok());
    assert!(validate(&Args {
        fields: vec![Field::LineNumbers],
        show: Some(Show::Count),
        ..args()
    })
    .is_err());
    assert!(validate(&Args {
        null: true,
        format: Some(Format::Json),
        ..args()
    })
    .is_err());
    assert!(validate(&Args {
        quiet: true,
        summary: true,
        ..args()
    })
    .is_err());
}

#[test]
fn accepts_threads_under_the_default_device() {
    assert!(validate(&Args {
        threads: Some(2),
        ..args()
    })
    .is_ok());
    assert!(validate(&Args {
        device: Some(Device::Gpu),
        threads: Some(2),
        ..args()
    })
    .is_err());
}

#[test]
fn sz_fuzzy_find_closes_a_json_stream_with_its_summary() {
    let outcome = Outcome {
        total: 9,
        readable: 1,
    };
    let mut cfg = OutputConfig {
        line_numbers: false,
        scores: false,
        show: Show::Lines,
        format: Format::Json,
        prefix: false,
        summary: true,
        terminator: Terminator::Newline,
    };
    let (mut written, mut notes) = (Vec::new(), Vec::new());
    write_summary(&mut written, &mut notes, &cfg, &outcome, 1);
    let record = String::from_utf8(written).unwrap();
    assert!(
        record.starts_with(r#"{"type":"summary","data":{"#),
        "{}",
        record
    );
    assert!(record.contains(r#""matched_lines":9"#), "{}", record);
    assert!(notes.is_empty(), "a record belongs to the stream it closes");

    // In text it is prose about the run, so it leaves the record stream alone.
    cfg.format = Format::Text;
    let (mut written, mut notes) = (Vec::new(), Vec::new());
    write_summary(&mut written, &mut notes, &cfg, &outcome, 1);
    assert!(written.is_empty(), "prose is not a match");
    assert!(String::from_utf8(notes)
        .unwrap()
        .starts_with("matched 9 lines"));
}

#[test]
fn embeds_a_keyboard_for_every_script_it_claims() {
    for layout in ["us", "de", "fr", "ru"] {
        assert!(
            !Keyboard::load(&keyboards(), layout).is_empty(),
            "{layout} must be in the embedded table"
        );
    }
    assert!(Keyboard::load(&keyboards(), "no-such-layout").is_empty());
}

#[test]
fn never_admits_an_empty_needle() {
    // `Substrings::new` rejects an entire dictionary over one empty needle, and deleting the
    // only character of a one-character query produces exactly that.
    for pattern in ["a", "ab", "color"] {
        let vocabulary = ball(pattern, 2, Alphabet::Keyboard);
        assert!(
            vocabulary.needles.iter().all(|needle| !needle.is_empty()),
            "{pattern} produced an empty needle"
        );
    }
}

/// How much a hit on a needle counts: what produced it, shared out over one more than its distance.
fn weight(origin: &sztools::fuzzy::vocabulary::Origin) -> f32 {
    f32::from(origin.derivation.percent()) / 100.0 / (origin.distance as f32 + 1.0)
}

#[test]
fn weights_every_variant_strictly_positive() {
    // A positive score is the match test, so a zero weight would make a matched line
    // indistinguishable from an untouched one.
    let vocabulary = ball("color", 2, Alphabet::Keyboard);
    assert!(vocabulary.origins.iter().all(|origin| weight(origin) > 0.0));
    assert_eq!(vocabulary.needles.len(), vocabulary.origins.len());
}

#[test]
fn scores_the_query_itself_above_its_variants() {
    let vocabulary = ball("color", 1, Alphabet::Keyboard);
    let exact = vocabulary
        .needles
        .iter()
        .position(|needle| needle == "color")
        .expect("the query is its own first variant");
    let best_variant = vocabulary
        .origins
        .iter()
        .enumerate()
        .filter(|(index, _)| *index != exact)
        .map(|(_, origin)| weight(origin))
        .fold(0.0f32, f32::max);
    assert!(weight(&vocabulary.origins[exact]) > best_variant);
}

#[test]
fn narrows_the_ball_to_adjacent_keys() {
    // The whole reason `--cost keyboard` exists: it is what keeps a two-edit ball affordable.
    let script = ball("washington", 2, Alphabet::Script).needles.len();
    let keyboard = ball("washington", 2, Alphabet::Keyboard).needles.len();
    assert!(
        keyboard * 5 < script,
        "keyboard ball {keyboard} should be far under the script ball {script}"
    );
}

#[test]
fn pools_every_query_into_one_dictionary() {
    // Several queries share one automaton.
    let patterns = vec!["color".to_string(), "flavour".to_string()];
    let pooled =
        Vocabulary::build(&patterns, 1, Alphabet::Keyboard, &us(), Dictionary::Ignored, MISSPELLINGS);
    assert!(pooled.needles.iter().any(|needle| needle == "color"));
    assert!(pooled.needles.iter().any(|needle| needle == "flavour"));

    // Pooling is what makes one walk enough, so the dictionary must be the union rather than
    // whichever query happened to be built last.
    let alone = |pattern: &str| {
        Vocabulary::build(
            &[pattern.to_string()],
            1,
            Alphabet::Keyboard,
            &us(),
            Dictionary::Ignored,
            MISSPELLINGS,
        )
        .needles
        .len()
    };
    assert!(pooled.needles.len() > alone("color").max(alone("flavour")));
}

#[test]
fn detects_the_script_the_query_is_written_in() {
    let one = |pattern: &str| Script::of(&[pattern.to_string()]);
    assert_eq!(one("washington"), Script::Latin);
    assert_eq!(one("правительство"), Script::Cyrillic);
    assert_eq!(one("Հայաստան"), Script::Armenian);
    assert_eq!(one("北京大学"), Script::Han);
    // Kana and Han mix in Japanese, and a query carrying both wants the Han reading folded.
    assert_eq!(one("ひらがな"), Script::Kana);
    assert_eq!(one("日本のひらがな"), Script::Han);
    // A query naming no script at all is typed on the layout that can type it.
    assert_eq!(one("2024"), Script::Latin);

    // Every script must name a layout the embedded table actually carries, or `--cost keyboard`
    // would silently have no neighbours to draw on.
    for script in Script::all() {
        assert!(
            !Keyboard::load(&keyboards(), script.layout()).is_empty(),
            "{script:?} names layout {} which is not embedded",
            script.layout()
        );
    }
}

#[test]
fn spends_nothing_on_folds_below_accents() {
    // No fold is resolved, so no automaton is
    // compiled, no rewrite runs and no offset map can exist.
    for effort in [Effort::Exact, Effort::Typos, Effort::Spelling] {
        let folds = resolve_folds(&folds(), &[], effort.folding(), Script::Latin).unwrap();
        assert!(folds.is_empty(), "{effort:?} resolved a fold");
    }
    for effort in [Effort::Accents, Effort::Sounds] {
        let folds = resolve_folds(&folds(), &[], effort.folding(), Script::Latin).unwrap();
        assert!(!folds.is_empty(), "{effort:?} resolved no fold");
    }
}

#[test]
fn widens_the_ball_one_rung_at_a_time() {
    let ball = |effort: Effort| {
        Vocabulary::build(
            &["washington".to_string()],
            effort.max_distance(),
            effort.alphabet(),
            &us(),
            effort.dictionary(),
            MISSPELLINGS,
        )
        .needles
        .len()
    };
    // Exact is the query and nothing else; every rung above widens.
    assert_eq!(ball(Effort::Exact), 1);
    assert!(ball(Effort::Typos) > ball(Effort::Exact));
    assert!(ball(Effort::Spelling) > ball(Effort::Typos));
    assert!(ball(Effort::Deep) > ball(Effort::Spelling));
}

#[test]
fn snaps_a_span_outward_when_it_lands_inside_a_rewrite() {
    // `ph` -> `f` makes the folded span shorter than the original, so an offset inside the
    // rewrite has no original byte of its own and must claim the whole region.
    let site = Site {
        folded_offset: 4,
        folded_length: 1,
        original_offset: 4,
        original_length: 2,
    };
    let map = StageMap {
        sites: vec![site],
        starts: vec![0, 1],
    };
    assert_eq!(map.backward(0, 4, Edge::Start), 4);
    assert_eq!(map.backward(0, 4, Edge::End), 6);
    assert_eq!(map.backward(0, 5, Edge::Start), 6);
    // Past the site the domains advance in lockstep again, offset by the drift.
    assert_eq!(map.backward(0, 6, Edge::End), 7);
}

#[test]
fn maps_a_deleting_rule_to_the_bytes_it_removed() {
    // An empty replacement leaves a zero-width mark: the offset is both on the site and after
    // it, and only the edge says which original boundary it names.
    let map = StageMap {
        sites: vec![Site {
            folded_offset: 2,
            folded_length: 0,
            original_offset: 2,
            original_length: 3,
        }],
        starts: vec![0, 1],
    };
    assert_eq!(map.backward(0, 2, Edge::Start), 2);
    assert_eq!(map.backward(0, 2, Edge::End), 5);
}

#[test]
fn chains_transliteration_before_phonetics() {
    // `Latin-Phonetic` has nothing to act on until the script transform has produced a Latin
    // syllable, so the order is a property of the level rather than of the caller.
    assert_eq!(
        Folding::Scripts.transforms(Script::Han),
        ["Han-Latin", "Latin-ASCII", "Latin-Phonetic"]
    );
    assert_eq!(
        Folding::Untouched.transforms(Script::Han),
        Vec::<&str>::new()
    );
    // A Latin query has nothing to transliterate, so the chain is shorter by one.
    assert_eq!(
        Folding::Scripts.transforms(Script::Latin),
        ["Latin-ASCII", "Latin-Phonetic"]
    );
}

#[test]
fn embeds_every_transform_the_ladder_names() {
    for script in Script::all() {
        for folding in [Folding::Accents, Folding::Sounds, Folding::Scripts] {
            let resolved = resolve_folds(&folds(), &[], folding, script);
            assert!(
                resolved.is_ok(),
                "{script:?} at {folding:?} names a transform that is not embedded"
            );
        }
    }
}

#[test]
fn ranks_what_produced_a_needle_and_how_far_it_lies() {
    assert!(is_better(
        Derivation::Exact,
        0,
        Derivation::Recorded,
        0
    ));
    assert!(is_better(
        Derivation::Substitution,
        1,
        Derivation::Substitution,
        2
    ));
    assert!(!is_better(Derivation::Exact, 0, Derivation::Exact, 0));
}

#[test]
fn draws_edits_from_the_keys_beside_the_ones_pressed() {
    let source: Vec<char> = "ab".chars().collect();
    let near = edits_of(&source, Alphabet::Keyboard, &us());
    let spelled = |text: &str| text.chars().collect::<Vec<char>>();
    let produced = |variant: &str, derivation: Derivation| {
        near.iter()
            .any(|edit| edit.variant == spelled(variant) && edit.derivation == derivation)
    };
    assert!(produced("ba", Derivation::Transposition));
    assert!(produced("b", Derivation::Deletion));
    assert!(produced("a", Derivation::Deletion));
    // `s` is beside `a`, and `p` is not.
    assert!(produced("sb", Derivation::Substitution));
    assert!(!near.iter().any(|edit| edit.variant == spelled("pb")));
    // A script ball reaches every key.
    let all = edits_of(&source, Alphabet::Script, &us());
    assert!(all.iter().any(|edit| edit.variant == spelled("pb")));
    assert!(near
        .iter()
        .all(|edit| all.iter().any(|other| other.variant == edit.variant)));
}

#[test]
fn lists_edits_kind_by_kind_and_place_by_place() {
    let listed = |keyboard: &Keyboard, alphabet: Alphabet| -> Vec<(String, Derivation)> {
        edits_of(&['a', 'b'], alphabet, keyboard)
            .into_iter()
            .map(|edit| (edit.variant.into_iter().collect(), edit.derivation))
            .collect()
    };
    let plain = vec![
        ("b".to_string(), Derivation::Deletion),
        ("a".to_string(), Derivation::Deletion),
        ("ba".to_string(), Derivation::Transposition),
    ];
    assert_eq!(listed(&Keyboard::default(), Alphabet::Script), plain);
    assert_eq!(listed(&Keyboard::default(), Alphabet::Keyboard), plain);

    let keys = us();
    let mut expected = plain;
    for (at, key) in ['a', 'b'].into_iter().enumerate() {
        for near in keys.near(key) {
            let mut variant = vec!['a', 'b'];
            variant[at] = *near;
            expected.push((variant.into_iter().collect(), Derivation::Substitution));
        }
    }
    for (at, key) in ['a', 'b', 'b'].into_iter().enumerate() {
        for near in keys.near(key) {
            let mut variant = vec!['a', 'b'];
            variant.insert(at, *near);
            expected.push((variant.into_iter().collect(), Derivation::Insertion));
        }
    }
    assert_eq!(listed(&keys, Alphabet::Keyboard), expected);
}

#[test]
fn admits_recorded_misspellings_when_the_dictionary_is_known() {
    let built = |dictionary: Dictionary| {
        Vocabulary::build(
            &["color".to_string()],
            0,
            Alphabet::Keyboard,
            &us(),
            dictionary,
            MISSPELLINGS,
        )
    };
    assert_eq!(built(Dictionary::Ignored).needles, ["color"]);
    let known = built(Dictionary::Known);
    let mut needles = known.needles.clone();
    needles.sort();
    assert_eq!(needles, ["collor", "color", "colr"]);
    assert!(!known.is_empty());
}

#[test]
fn reads_each_misspelling_once_and_in_order() {
    assert_eq!(variants_of(MISSPELLINGS, "color"), ["collor", "colr"]);
    assert_eq!(variants_of(MISSPELLINGS, "their"), ["thier"]);
    assert!(variants_of(MISSPELLINGS, "thier").is_empty());
    assert_eq!(known_languages("en\ta\tb\nen\tc\td\nde\te\tf\n"), ["en", "de"]);
}

#[test]
fn reads_a_fold_out_of_its_table() {
    let table = "A\tx\ty\r\nB\tu\tv\nA\tz\t\nA\t\tw\nA\tshort\n";
    let fold = Fold::load(table, "A");
    assert_eq!(fold.sources, ["x", "z"]);
    assert_eq!(fold.targets, ["y", ""]);
    assert!(Fold::load(table, "C").is_empty());
    assert_eq!(Fold::known(table), ["A", "B", "A"]);
}

#[test]
fn detects_the_layout_a_pattern_was_typed_on() {
    let table = keyboards();
    assert_eq!(Keyboard::detect(&table, "Washington"), "us");
    assert_eq!(Keyboard::detect(&table, "й"), "ru");
    assert_eq!(
        Keyboard::known_layouts("us\ta\tb\nus\tb\ta\nde\tc\td\n"),
        ["us", "de"]
    );
    assert_eq!(us().near('a'), ['q', 'w', 's', 'z']);
    assert_eq!(us().alphabet().len(), 26);
    assert!(us().near('1').is_empty());
}

#[test]
fn refuses_a_layout_or_a_fold_that_no_table_carries() {
    let layout = resolve_keyboard(&keyboards(), Some("nope"), Script::Latin);
    assert!(matches!(layout, Err(Failure::Unresolved { .. })));
    assert!(resolve_keyboard(&keyboards(), None, Script::Cyrillic).is_ok());
    let fold = resolve_folds(
        &folds(),
        &["Nope-Latin".to_string()],
        Folding::Untouched,
        Script::Latin,
    );
    assert!(matches!(fold, Err(Failure::Unresolved { .. })));
    let named = resolve_folds(
        &folds(),
        &["Latin-ASCII".to_string()],
        Folding::Sounds,
        Script::Latin,
    )
    .unwrap();
    assert_eq!(named.len(), 1);
}

#[test]
fn reads_whether_case_is_ignored() {
    assert_eq!(parse_case_sensitivity("on"), Ok(CaseSensitivity::Uncased));
    assert_eq!(parse_case_sensitivity("no"), Ok(CaseSensitivity::Cased));
    assert!(parse_case_sensitivity("maybe").is_err());
}

#[test]
fn lets_an_option_override_its_rung() {
    let rung = SearchConfig::resolve(&args(), Effort::Exact);
    assert_eq!(rung.max_distance, 0);
    let widened = Args {
        max_distance: Some(2),
        cost: Some(Cost::Keyboard),
        top_k: Some(5),
        ..args()
    };
    let config = SearchConfig::resolve(&widened, Effort::Exact);
    assert_eq!(config.max_distance, 2);
    assert_eq!(config.alphabet, Alphabet::Keyboard);
    assert_eq!(config.top, Some(5));
}

#[test]
fn a_higher_rung_reaches_what_the_rung_below_reached() {
    let ladder = [
        Effort::Exact,
        Effort::Typos,
        Effort::Spelling,
        Effort::Accents,
        Effort::Sounds,
    ];
    let mut previous: Vec<String> = Vec::new();
    for effort in ladder {
        let needles = Vocabulary::build(
            &["color".to_string()],
            effort.max_distance(),
            effort.alphabet(),
            &us(),
            effort.dictionary(),
            MISSPELLINGS,
        )
        .needles;
        for needle in &previous {
            assert!(needles.contains(needle), "{effort:?} dropped {needle}");
        }
        previous = needles;
    }
}

#[test]
fn carries_a_span_back_through_the_sites_of_a_stage() {
    // "a phone" folds to "a fone": one site, at byte 2, where two bytes became one.
    let found = [Found {
        haystack_index: 0,
        needle_index: 0,
        byte_offset: 2,
        byte_length: 2,
    }];
    assert!(covers(&found, &[1], 1));
    let map = sites_of(&found, &[1], 1);
    assert_eq!(
        map.sites,
        [Site {
            folded_offset: 2,
            folded_length: 1,
            original_offset: 2,
            original_length: 2,
        }]
    );
    let rewrites = Rewrites { stages: vec![map] };
    let whole = rewrites.located(Found {
        haystack_index: 0,
        needle_index: 0,
        byte_offset: 2,
        byte_length: 4,
    });
    assert_eq!(
        whole,
        Located {
            line_index: 0,
            byte_offset: 2,
            byte_length: 5,
        }
    );
    // Without a stage a span stays where it is.
    let untouched = Rewrites { stages: Vec::new() };
    assert_eq!(untouched.backward(0, 3, Edge::End), 3);
}

#[test]
fn puts_what_a_walk_found_into_reading_order() {
    let at = |line: usize, offset: usize| Found {
        haystack_index: line,
        needle_index: 0,
        byte_offset: offset,
        byte_length: 1,
    };
    let sorted = in_reading_order(vec![at(1, 0), at(0, 5), at(0, 2)]);
    assert_eq!(sorted, [at(0, 2), at(0, 5), at(1, 0)]);
    // Two that overlap do not tile a line.
    assert!(!covers(&[at(0, 2), at(0, 2)], &[1], 1));
}

fn text_config(show: Show) -> OutputConfig {
    OutputConfig {
        line_numbers: true,
        scores: false,
        show,
        format: Format::Text,
        prefix: true,
        summary: false,
        terminator: Terminator::Newline,
    }
}

#[test]
fn keeps_the_best_lines_and_reports_them() {
    let data = b"the color red\nnothing\nkolor\ncolor\n";
    let lines = search_lines(data, false);
    assert_eq!(lines.len(), 4);
    let survivor = |index: usize, rank: u32| Survivor {
        index,
        line: lines[index],
        rank,
        score: "1.00",
    };
    let kept = rank(
        vec![survivor(0, 10), survivor(2, 5), survivor(3, 20)],
        Some(2),
    );
    assert_eq!(
        kept.iter().map(|one| one.index).collect::<Vec<_>>(),
        [3, 0]
    );

    let mut output = Vec::new();
    report_input(&mut output, &text_config(Show::Lines), "f", &kept, &[]);
    assert_eq!(output, b"f:4:color\nf:1:the color red\n");

    let mut output = Vec::new();
    report_input(&mut output, &text_config(Show::Count), "f", &kept, &[]);
    assert_eq!(output, b"f:2\n");

    let mut output = Vec::new();
    report_input(&mut output, &text_config(Show::Files), "f", &kept, &[]);
    assert_eq!(output, b"f\n");

    let mut output = Vec::new();
    let spans = [Located {
        line_index: 1,
        byte_offset: 4,
        byte_length: 5,
    }];
    report_input(&mut output, &text_config(Show::Matches), "f", &kept, &spans);
    assert_eq!(output, b"f:1:color\n");
}

#[test]
fn tells_an_unreadable_run_from_one_without_matches() {
    let mut outcome = Outcome {
        total: 0,
        readable: 0,
    };
    assert!(outcome.status() == Status::Error);
    outcome.searched(0);
    assert!(outcome.status() == Status::NoResult);
    outcome.searched(2);
    assert!(outcome.status() == Status::Success);
    assert_eq!((outcome.total, outcome.readable), (2, 2));
}

#[test]
fn builds_the_vocabulary_a_configuration_asks_for() {
    let config = SearchConfig::resolve(&args(), Effort::Exact);
    let patterns = vec!["color".to_string()];
    let built = build_vocabulary(&patterns, &config, &us(), MISSPELLINGS).unwrap();
    assert_eq!(built.needles, ["color"]);
    let empty = build_vocabulary(&[String::new()], &config, &us(), MISSPELLINGS);
    assert!(empty.is_err());
}

#[test]
fn refuses_a_match_that_no_stage_can_carry_back() {
    let at = |line: usize, offset: usize, length: usize| Found {
        haystack_index: line,
        needle_index: 0,
        byte_offset: offset,
        byte_length: length,
    };
    let map = sites_of(&[at(0, 2, 2)], &[1], 1);
    let rewrites = Rewrites { stages: vec![map] };
    assert_eq!(
        rewrites.checked_located(at(0, 2, 4)),
        Some(rewrites.located(at(0, 2, 4)))
    );
    // In front of the rewrite an offset stays, inside it the edges widen, and behind it they shift.
    assert_eq!(rewrites.checked_backward(0, 1, Edge::Start), Some(1));
    assert_eq!(rewrites.checked_backward(0, 2, Edge::Start), Some(2));
    assert_eq!(rewrites.checked_backward(0, 2, Edge::End), Some(4));
    assert_eq!(rewrites.checked_backward(0, 3, Edge::Start), Some(4));
    // No such line, an end past what can be counted, and a text that would be longer than that.
    assert_eq!(rewrites.checked_located(at(1, 0, 1)), None);
    assert_eq!(rewrites.checked_located(at(0, usize::MAX, 1)), None);
    assert_eq!(rewrites.checked_backward(0, usize::MAX, Edge::End), None);
    // Sites that overlap, and sites that drift apart where nothing was rewritten.
    let site = |folded: usize, original: usize| Site {
        folded_offset: folded,
        folded_length: 2,
        original_offset: original,
        original_length: 2,
    };
    for sites in [
        vec![site(0, 0), site(1, 1)],
        vec![site(0, 0), site(3, 4)],
        vec![site(1, 0)],
    ] {
        let starts = vec![0, sites.len()];
        let map = StageMap { sites, starts };
        assert_eq!(map.checked_backward(0, 0, Edge::Start), None);
    }
}
