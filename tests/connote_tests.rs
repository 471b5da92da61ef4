use connote::{
    connoted_entry, load_prior, parse_connoted_lines, parse_lines, render_connoted, Connotation,
    ConnotationMap, Entry, EntryId, ParseError, Reconciliation, WordForm,
};

fn id(word: &str, form: WordForm) -> EntryId {
    EntryId { word: word.to_string(), form }
}

fn entry(word: &str, form: WordForm, definition: &str) -> Entry {
    Entry { word: word.to_string(), definition: definition.to_string(), form }
}

/// Runs a reconciliation to its end, answering each question with `classify`; returns the
/// result, the entries that were asked about, and the texts handed out for an initially
/// empty store.
fn run(
    entries: Vec<Entry>,
    prior: ConnotationMap,
    classify: impl Fn(&Entry) -> Connotation,
) -> (ConnotationMap, Vec<String>, Vec<String>) {
    let mut r = Reconciliation::new(entries, prior);
    let mut asked = Vec::new();
    let mut appended: Vec<String> = Vec::new();
    let mut store = String::new();
    while let Some(e) = r.advance() {
        asked.push(e.render());
        let text = r.resolve(classify(&e), &store).expect("an entry waits");
        store.push_str(&text);
        appended.push(text);
    }
    (r.finish().expect("all entries resolved"), asked, appended)
}

#[test]
fn tags_of_forms_and_connotations() {
    assert_eq!(WordForm::Noun.tag(), "noun");
    assert_eq!(WordForm::Adjective.tag(), "adj");
    assert_eq!(WordForm::Verb.tag(), "verb");
    assert_eq!(WordForm::Adverb.tag(), "adv");
    assert_eq!(WordForm::Phrase.tag(), "phrase");
    assert_eq!(WordForm::Saying.tag(), "say");
    assert_eq!(WordForm::Abbreviation.tag(), "abbr");
    assert_eq!(Connotation::Positive.tag(), "positive");
    assert_eq!(Connotation::Neutral.tag(), "neutral");
    assert_eq!(Connotation::Negative.tag(), "negative");
}

#[test]
fn renders_canonical_lines() {
    let e = entry("light", WordForm::Adjective, "not heavy, bright");
    assert_eq!(e.render(), "light [adj] - not heavy, bright");
    assert_eq!(e.id().render(), "light [adj]");
    assert_eq!(render_connoted(&e.id(), Connotation::Positive), "light [adj] - positive");
}

#[test]
fn parses_each_form() {
    let forms = [
        (WordForm::Noun, "noun"),
        (WordForm::Adjective, "adj"),
        (WordForm::Verb, "verb"),
        (WordForm::Adverb, "adv"),
        (WordForm::Phrase, "phrase"),
        (WordForm::Saying, "say"),
        (WordForm::Abbreviation, "abbr"),
    ];
    for (form, tag) in forms {
        let line = format!("word [{tag}] - a definition");
        let e = Entry::parse(&line).expect("well-formed line");
        assert_eq!(e, entry("word", form, "a definition"));
    }
}

#[test]
fn entry_round_trip() {
    let samples = vec![
        entry("run", WordForm::Verb, "move quickly"),
        entry("light", WordForm::Noun, ""),
        entry("a[b] c", WordForm::Phrase, "x - y [noun] - z"),
        entry("", WordForm::Saying, "empty word"),
        entry("café", WordForm::Abbreviation, "ünïcode – text"),
    ];
    for e in samples {
        assert_eq!(Entry::parse(&e.render()), Some(e.clone()));
    }
}

#[test]
fn connoted_round_trip() {
    for c in [Connotation::Positive, Connotation::Neutral, Connotation::Negative] {
        let i = id("gloom", WordForm::Noun);
        assert_eq!(connoted_entry(&render_connoted(&i, c)), Some((i.clone(), c)));
    }
}

#[test]
fn word_ends_at_first_delimiter() {
    let e = Entry::parse("a word [verb] - def [noun] - more").expect("parses");
    assert_eq!(e, entry("a word", WordForm::Verb, "def [noun] - more"));
}

#[test]
fn rejects_malformed_lines() {
    assert_eq!(Entry::parse("run [Verb] - move"), None);
    assert_eq!(Entry::parse("run [verb]- move"), None);
    assert_eq!(Entry::parse("run [verb] move"), None);
    assert_eq!(Entry::parse("run verb - move"), None);
    assert_eq!(Entry::parse("run [vrb] - move"), None);
    assert_eq!(Entry::parse(""), None);
    assert_eq!(connoted_entry("run [verb] - neutral extra"), None);
    assert_eq!(connoted_entry("run [verb] - Neutral"), None);
    assert_eq!(connoted_entry("run [verb] - neut"), None);
    assert_eq!(
        connoted_entry("run [verb] - neutral"),
        Some((id("run", WordForm::Verb), Connotation::Neutral))
    );
}

#[test]
fn empty_file_has_no_records() {
    assert_eq!(parse_lines(""), Ok(vec![]));
    assert_eq!(parse_connoted_lines(""), Ok(vec![]));
}

#[test]
fn one_trailing_line_ending_is_accepted() {
    let v = parse_lines("run [verb] - move quickly\ngloom [noun] - darkness\n").unwrap();
    assert_eq!(
        v,
        vec![
            entry("run", WordForm::Verb, "move quickly"),
            entry("gloom", WordForm::Noun, "darkness"),
        ]
    );
    let w = parse_lines("run [verb] - move quickly\r\ngloom [noun] - darkness\r\n").unwrap();
    assert_eq!(v, w);
    let x = parse_lines("run [verb] - move quickly\ngloom [noun] - darkness").unwrap();
    assert_eq!(v, x);
}

#[test]
fn extra_blank_line_is_an_error() {
    assert_eq!(
        parse_lines("run [verb] - move quickly\n\n"),
        Err(ParseError { line: 1 })
    );
    assert_eq!(
        parse_lines("run [verb] - move quickly\n\ngloom [noun] - darkness"),
        Err(ParseError { line: 1 })
    );
}

#[test]
fn one_bad_line_fails_the_whole_file() {
    let mut text = String::new();
    for i in 0..10 {
        text.push_str(&format!("word{i} [noun] - definition {i}\n"));
        if i == 6 {
            text.push_str("broken line without a form\n");
        }
    }
    assert_eq!(parse_lines(&text), Err(ParseError { line: 7 }));
    let good: String = text.lines().filter(|l| !l.starts_with("broken")).map(|l| format!("{l}\n")).collect();
    assert_eq!(parse_lines(&good).map(|v| v.len()), Ok(10));
}

#[test]
fn connoted_file_fails_on_bad_tag() {
    let text = "run [verb] - neutral\ngloom [noun] - gloomy\n";
    assert_eq!(parse_connoted_lines(text), Err(ParseError { line: 1 }));
    assert!(load_prior(text).is_err());
}

#[test]
fn last_record_of_an_identity_wins() {
    let m = load_prior("run [verb] - neutral\nrun [noun] - positive\nrun [verb] - negative\n")
        .unwrap();
    assert_eq!(m.get(&id("run", WordForm::Verb)), Some(Connotation::Negative));
    assert_eq!(m.get(&id("run", WordForm::Noun)), Some(Connotation::Positive));
    assert_eq!(m.to_vec().len(), 2);
}

#[test]
fn example_scenario() {
    let entries = parse_lines("run [verb] - move quickly\ngloom [noun] - darkness\n").unwrap();
    let prior = load_prior("run [verb] - neutral\n").unwrap();
    let (result, asked, appended) = run(entries, prior, |e| {
        assert_eq!(e.word, "gloom");
        Connotation::Negative
    });
    assert_eq!(asked, vec!["gloom [noun] - darkness".to_string()]);
    assert_eq!(appended, vec!["gloom [noun] - negative\n".to_string()]);
    assert_eq!(result.get(&id("run", WordForm::Verb)), Some(Connotation::Neutral));
    assert_eq!(result.get(&id("gloom", WordForm::Noun)), Some(Connotation::Negative));
    assert_eq!(result.to_vec().len(), 2);

    let store = format!("run [verb] - neutral\n{}", appended[0]);
    assert!(store.starts_with("run [verb] - neutral\n"));
    assert_eq!(
        parse_connoted_lines(&store),
        Ok(vec![
            (id("run", WordForm::Verb), Connotation::Neutral),
            (id("gloom", WordForm::Noun), Connotation::Negative),
        ])
    );
}

#[test]
fn reconciliation_is_idempotent() {
    let text = "run [verb] - move\ngloom [noun] - darkness\njoy [noun] - delight\n";
    let answer = |e: &Entry| {
        if e.word == "joy" {
            Connotation::Positive
        } else {
            Connotation::Negative
        }
    };
    let (first, asked, _) = run(parse_lines(text).unwrap(), ConnotationMap::new(), answer);
    assert_eq!(asked.len(), 3);
    let (second, asked_again, appended) =
        run(parse_lines(text).unwrap(), first, |_| panic!("classifier must not be asked"));
    assert!(asked_again.is_empty());
    assert!(appended.is_empty());
    assert_eq!(
        second.to_vec(),
        vec![
            (id("run", WordForm::Verb), Connotation::Negative),
            (id("gloom", WordForm::Noun), Connotation::Negative),
            (id("joy", WordForm::Noun), Connotation::Positive),
        ]
    );
}

#[test]
fn every_identity_gets_one_connotation() {
    let entries = vec![
        entry("light", WordForm::Noun, "radiance"),
        entry("light", WordForm::Adjective, "not heavy"),
        entry("dark", WordForm::Adjective, "without light"),
    ];
    let (result, _, _) = run(entries, ConnotationMap::new(), |_| Connotation::Neutral);
    let pairs = result.to_vec();
    assert_eq!(pairs.len(), 3);
    assert_eq!(result.get(&id("light", WordForm::Noun)), Some(Connotation::Neutral));
    assert_eq!(result.get(&id("light", WordForm::Adjective)), Some(Connotation::Neutral));
    assert_eq!(result.get(&id("dark", WordForm::Adjective)), Some(Connotation::Neutral));
}

#[test]
fn prior_knowledge_takes_precedence() {
    let entries = vec![
        entry("joy", WordForm::Noun, "delight"),
        entry("grief", WordForm::Noun, "sorrow"),
    ];
    let prior = load_prior("joy [noun] - positive\n").unwrap();
    let (result, asked, _) = run(entries, prior, |e| {
        assert_ne!(e.word, "joy");
        Connotation::Negative
    });
    assert_eq!(asked, vec!["grief [noun] - sorrow".to_string()]);
    assert_eq!(result.get(&id("joy", WordForm::Noun)), Some(Connotation::Positive));
}

#[test]
fn repeated_identity_consumes_prior_record_once() {
    let entries = vec![
        entry("joy", WordForm::Noun, "delight"),
        entry("joy", WordForm::Noun, "delight again"),
    ];
    let prior = load_prior("joy [noun] - positive\n").unwrap();
    let (result, asked, appended) = run(entries, prior, |_| Connotation::Neutral);
    assert_eq!(asked, vec!["joy [noun] - delight again".to_string()]);
    assert_eq!(appended, vec!["joy [noun] - neutral\n".to_string()]);
    assert_eq!(result.get(&id("joy", WordForm::Noun)), Some(Connotation::Neutral));
    assert_eq!(result.to_vec().len(), 1);
}

#[test]
fn resolve_without_a_waiting_entry_does_nothing() {
    let mut r = Reconciliation::new(vec![], ConnotationMap::new());
    assert_eq!(r.resolve(Connotation::Positive, ""), None);
    assert!(r.advance().is_none());
    assert!(r.finish().expect("done").to_vec().is_empty());
}

#[test]
fn finish_before_the_end_gives_nothing() {
    let mut r = Reconciliation::new(vec![entry("a", WordForm::Noun, "b")], ConnotationMap::new());
    assert!(r.advance().is_some());
    assert!(r.finish().is_none());
}

#[test]
fn map_insert_get_remove() {
    let mut m = ConnotationMap::new();
    m.insert(id("a", WordForm::Noun), Connotation::Positive);
    m.insert(id("b", WordForm::Verb), Connotation::Negative);
    m.insert(id("a", WordForm::Noun), Connotation::Neutral);
    assert_eq!(m.get(&id("a", WordForm::Noun)), Some(Connotation::Neutral));
    assert_eq!(m.get(&id("a", WordForm::Verb)), None);
    assert_eq!(m.remove(&id("a", WordForm::Noun)), Some(Connotation::Neutral));
    assert_eq!(m.remove(&id("a", WordForm::Noun)), None);
    assert_eq!(m.to_vec(), vec![(id("b", WordForm::Verb), Connotation::Negative)]);
}

#[test]
fn detects_unterminated_last_line() {
    assert!(!connote::needs_line_ending(""));
    assert!(!connote::needs_line_ending("run [verb] - neutral\n"));
    assert!(connote::needs_line_ending("run [verb] - neutral"));
    assert!(!connote::needs_line_ending("run [verb] - neutral\r\n"));
}

#[test]
fn split_lines_strips_crlf_endings() {
    let lines = connote::split_lines("a\r\nb\nc\r\n");
    let expected: Vec<Vec<char>> = vec![vec!['a'], vec!['b'], vec!['c']];
    assert_eq!(lines, expected);
    assert_eq!(connote::split_lines("\n"), vec![Vec::<char>::new()]);
    assert_eq!(connote::split_lines(""), Vec::<Vec<char>>::new());
    assert_eq!(connote::split_lines("x\r"), vec![vec!['x', '\r']]);
}

#[test]
fn store_of_a_lone_line_ending_is_rejected() {
    assert_eq!(parse_connoted_lines("\n"), Err(ParseError { line: 0 }));
    assert_eq!(parse_connoted_lines("\r\n"), Err(ParseError { line: 0 }));
    assert!(load_prior("\n").is_err());
    assert_eq!(parse_lines("\n"), Err(ParseError { line: 0 }));
}

#[test]
fn appending_to_an_unterminated_store_closes_its_last_line() {
    let store = "run [verb] - neutral";
    let mut r = Reconciliation::new(
        vec![entry("gloom", WordForm::Noun, "darkness")],
        load_prior(store).unwrap(),
    );
    assert!(r.advance().is_some());
    let text = r.resolve(Connotation::Negative, store).unwrap();
    assert_eq!(text, "\ngloom [noun] - negative\n");
    let after = format!("{store}{text}");
    assert_eq!(
        parse_connoted_lines(&after),
        Ok(vec![
            (id("run", WordForm::Verb), Connotation::Neutral),
            (id("gloom", WordForm::Noun), Connotation::Negative),
        ])
    );
}

#[test]
fn appending_to_a_terminated_store_adds_only_the_record() {
    let store = "run [verb] - neutral\r\n";
    let mut r = Reconciliation::new(
        vec![entry("gloom", WordForm::Noun, "darkness")],
        load_prior(store).unwrap(),
    );
    assert!(r.advance().is_some());
    let text = r.resolve(Connotation::Positive, store).unwrap();
    assert_eq!(text, "gloom [noun] - positive\n");
    assert_eq!(parse_connoted_lines(&format!("{store}{text}")).map(|v| v.len()), Ok(2));
}
