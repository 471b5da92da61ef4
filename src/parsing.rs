use vstd::prelude::*;

use crate::entries::{
    connotation_tag, connoted_text, entry_text, form_tag, free_of_breaks, has_bracket_at,
    id_text, is_connoted_line, is_entry_line, is_line_break, separator, valid_word, Connotation,
    Entry, EntryId, WordForm,
};
use crate::text::{chars_of, string_of};
use vstd::slice::slice_subrange;

verus! {

/// `p` occurs in `t` starting at index `at`.
pub open spec fn occurs_at(t: Seq<char>, at: int, p: Seq<char>) -> bool {
    &&& 0 <= at
    &&& at + p.len() <= t.len()
    &&& forall|i: int| 0 <= i < p.len() ==> t[at + i] == #[trigger] p[i]
}

fn matches_at(l: &Vec<char>, at: usize, p: &str) -> (r: bool)
    ensures
        r == occurs_at(l@, at as int, p@),
{
    let n = p.unicode_len();
    if n > l.len() || at > l.len() - n {
        return false;
    }
    let mut i: usize = 0;
    while i < n
        invariant
            n == p@.len(),
            at + n <= l@.len(),
            l@.len() <= usize::MAX,
            i <= n,
            forall|k: int| 0 <= k < i ==> l@[at + k] == p@[k],
        decreases n - i,
    {
        if l[at + i] != p.get_char(i) {
            return false;
        }
        i = i + 1;
    }
    true
}

/// First index of the delimiter `" ["` in the line.
fn find_bracket(l: &Vec<char>) -> (r: Option<usize>)
    ensures
        match r {
            Some(p) => has_bracket_at(l@, p as int) && forall|j: int|
                0 <= j < p ==> !#[trigger] has_bracket_at(l@, j),
            None => forall|j: int| !#[trigger] has_bracket_at(l@, j),
        },
{
    let mut i: usize = 0;
    while l.len() > 1 && i < l.len() - 1
        invariant
            i <= l@.len(),
            forall|j: int| 0 <= j < i ==> !#[trigger] has_bracket_at(l@, j),
        decreases l.len() - i,
    {
        if l[i] == ' ' && l[i + 1] == '[' {
            return Some(i);
        }
        i = i + 1;
    }
    None
}

/// Whether `l[lo..hi]` holds no line break.
fn breaks_free(l: &Vec<char>, lo: usize, hi: usize) -> (r: bool)
    requires
        lo <= hi <= l@.len(),
    ensures
        r == free_of_breaks(l@.subrange(lo as int, hi as int)),
{
    let mut i: usize = lo;
    while i < hi
        invariant
            lo <= i <= hi <= l@.len(),
            forall|k: int| lo <= k < i ==> !is_line_break(l@[k]),
        decreases hi - i,
    {
        if l[i] == '\n' || l[i] == '\r' {
            assert(l@.subrange(lo as int, hi as int)[i - lo] == l@[i as int]);
            return false;
        }
        i = i + 1;
    }
    assert forall|k: int| 0 <= k < hi - lo implies !is_line_break(
        #[trigger] l@.subrange(lo as int, hi as int)[k],
    ) by {
        assert(l@.subrange(lo as int, hi as int)[k] == l@[lo + k]);
    }
    true
}

/// The form whose tag occurs at `at`; the tags are tried in a fixed order.
fn match_form(l: &Vec<char>, at: usize) -> (r: Option<WordForm>)
    ensures
        match r {
            Some(f) => occurs_at(l@, at as int, form_tag(f)),
            None => forall|f: WordForm| !occurs_at(l@, at as int, #[trigger] form_tag(f)),
        },
{
    let forms = [
        WordForm::Noun,
        WordForm::Adjective,
        WordForm::Verb,
        WordForm::Phrase,
        WordForm::Saying,
        WordForm::Adverb,
        WordForm::Abbreviation,
    ];
    let mut i: usize = 0;
    while i < 7
        invariant
            forms@ == seq![
                WordForm::Noun,
                WordForm::Adjective,
                WordForm::Verb,
                WordForm::Phrase,
                WordForm::Saying,
                WordForm::Adverb,
                WordForm::Abbreviation,
            ],
            i <= 7,
            forall|k: int| 0 <= k < i ==> !occurs_at(l@, at as int, form_tag(#[trigger] forms@[k])),
        decreases 7 - i,
    {
        let f = forms[i];
        if matches_at(l, at, f.tag()) {
            return Some(f);
        }
        i = i + 1;
    }
    assert forall|f: WordForm| !occurs_at(l@, at as int, #[trigger] form_tag(f)) by {
        let k: int = match f {
            WordForm::Noun => 0,
            WordForm::Adjective => 1,
            WordForm::Verb => 2,
            WordForm::Phrase => 3,
            WordForm::Saying => 4,
            WordForm::Adverb => 5,
            WordForm::Abbreviation => 6,
        };
        assert(forms@[k] == f);
    }
    None
}

/// The connotation whose tag is exactly `l[at..]`.
fn match_connotation(l: &Vec<char>, at: usize) -> (r: Option<Connotation>)
    ensures
        match r {
            Some(c) => occurs_at(l@, at as int, connotation_tag(c)) && at + connotation_tag(
                c,
            ).len() == l@.len(),
            None => forall|c: Connotation|
                !(occurs_at(l@, at as int, #[trigger] connotation_tag(c)) && at
                    + connotation_tag(c).len() == l@.len()),
        },
{
    let cs = [Connotation::Positive, Connotation::Negative, Connotation::Neutral];
    let mut i: usize = 0;
    while i < 3
        invariant
            cs@ == seq![Connotation::Positive, Connotation::Negative, Connotation::Neutral],
            i <= 3,
            forall|k: int|
                0 <= k < i ==> !(occurs_at(l@, at as int, connotation_tag(#[trigger] cs@[k]))
                    && at + connotation_tag(cs@[k]).len() == l@.len()),
        decreases 3 - i,
    {
        let c = cs[i];
        let t = c.tag();
        if matches_at(l, at, t) && l.len() - at == t.unicode_len() {
            return Some(c);
        }
        i = i + 1;
    }
    assert forall|c: Connotation|
        !(occurs_at(l@, at as int, #[trigger] connotation_tag(c)) && at + connotation_tag(c).len()
            == l@.len()) by {
        let k: int = match c {
            Connotation::Positive => 0,
            Connotation::Negative => 1,
            Connotation::Neutral => 2,
        };
        assert(cs@[k] == c);
    }
    None
}


/// The line begins with the rendering of the valid identity `(w, f)`.
pub open spec fn id_prefix(t: Seq<char>, w: Seq<char>, f: WordForm) -> bool {
    &&& valid_word(w)
    &&& id_text(w, f).len() <= t.len()
    &&& t.subrange(0, id_text(w, f).len() as int) == id_text(w, f)
}

/// Two forms whose tags begin with the same three characters are the same form.
proof fn lemma_form_tags_differ_early(f: WordForm, g: WordForm)
    requires
        form_tag(f)[0] == form_tag(g)[0],
        form_tag(f)[1] == form_tag(g)[1],
        form_tag(f)[2] == form_tag(g)[2],
    ensures
        f == g,
{
    match f {
        WordForm::Noun => {},
        WordForm::Adjective => {},
        WordForm::Verb => {},
        WordForm::Adverb => {},
        WordForm::Phrase => {},
        WordForm::Saying => {},
        WordForm::Abbreviation => {},
    }
}

/// What the parser of identities meets on a line that starts with the rendering of a valid
/// identity: the first delimiter right after the word, then the form's tag and nothing else
/// that is a tag, then the closing bracket.
proof fn lemma_id_prefix(t: Seq<char>, w: Seq<char>, f: WordForm)
    requires
        id_prefix(t, w, f),
    ensures
        ({
            let a = w.len() + 2int;
            &&& has_bracket_at(t, w.len() as int)
            &&& forall|j: int| 0 <= j < w.len() ==> !#[trigger] has_bracket_at(t, j)
            &&& occurs_at(t, a, form_tag(f))
            &&& forall|g: WordForm| #[trigger] occurs_at(t, a, form_tag(g)) ==> g == f
            &&& t[a + form_tag(f).len()] == ']'
            &&& t.subrange(0, w.len() as int) == w
            &&& t.subrange(0, id_text(w, f).len() as int) == id_text(w, f)
            &&& id_text(w, f).len() == a + form_tag(f).len() + 1
        }),
{
    let u = id_text(w, f);
    let a = w.len() + 2int;
    assert forall|i: int| 0 <= i < u.len() implies t[i] == u[i] by {
        assert(t.subrange(0, u.len() as int)[i] == t[i]);
    }
    let tag = form_tag(f);
    assert(tag.len() >= 3);
    assert forall|i: int| 0 <= i < w.len() implies t[i] == w[i] by {
        assert(t[i] == u[i]);
    }
    assert(t[w.len() as int] == ' ');
    assert(t[w.len() + 1int] == '[');
    assert forall|k: int| 0 <= k < tag.len() implies t[a + k] == #[trigger] tag[k] by {
        assert(t[a + k] == u[a + k]);
    }
    assert(t[a + tag.len()] == ']');
    assert forall|j: int| 0 <= j < w.len() implies !#[trigger] has_bracket_at(t, j) by {
        if j + 1 < w.len() {
            assert(!has_bracket_at(w, j));
        }
    }
    assert forall|g: WordForm| #[trigger] occurs_at(t, a, form_tag(g)) implies g == f by {
        let tg = form_tag(g);
        assert(tg.len() >= 3);
        assert(t[a + 0] == tg[0] && t[a + 0] == tag[0]);
        assert(t[a + 1] == tg[1] && t[a + 1] == tag[1]);
        assert(t[a + 2] == tg[2] && t[a + 2] == tag[2]);
        lemma_form_tags_differ_early(f, g);
    }
    assert(t.subrange(0, w.len() as int) =~= w);
    assert(t.subrange(0, u.len() as int) =~= u);
}


/// Parses `<word> [<form-tag>]` at the start of the line; returns the identity and the index
/// where it ends.
fn parse_id(l: &Vec<char>) -> (r: Option<(EntryId, usize)>)
    ensures
        r matches Some((id, q)) ==> id.wf() && id_prefix(l@, id.word@, id.form) && q == id_text(
            id.word@,
            id.form,
        ).len(),
        forall|w: Seq<char>, f: WordForm|
            #[trigger] id_prefix(l@, w, f) ==> (r matches Some((id, q)) && id@ == (w, f)),
{
    let p = match find_bracket(l) {
        Some(p) => p,
        None => {
            proof {
                assert forall|w: Seq<char>, f: WordForm| #[trigger] id_prefix(l@, w, f) implies false by {
                    lemma_id_prefix(l@, w, f);
                }
            }
            return None;
        },
    };
    proof {
        assert forall|w: Seq<char>, f: WordForm| #[trigger] id_prefix(l@, w, f) implies p == w.len() by {
            lemma_id_prefix(l@, w, f);
            if p < w.len() {
                assert(!has_bracket_at(l@, p as int));
            }
            if p > w.len() {
                assert(!has_bracket_at(l@, w.len() as int));
            }
        }
    }
    assert(p + 2 <= l.len());
    if !breaks_free(l, 0, p) {
        proof {
            assert forall|w: Seq<char>, f: WordForm| #[trigger] id_prefix(l@, w, f) implies false by {
                lemma_id_prefix(l@, w, f);
            }
        }
        return None;
    }
    let form = match match_form(l, p + 2) {
        Some(f) => f,
        None => {
            proof {
                assert forall|w: Seq<char>, f: WordForm| #[trigger] id_prefix(l@, w, f) implies false by {
                    lemma_id_prefix(l@, w, f);
                }
            }
            return None;
        },
    };
    let tag_len = form.tag().unicode_len();
    assert(p + 2 + tag_len <= l.len());
    let q = p + 2 + tag_len;
    if q >= l.len() || l[q] != ']' {
        proof {
            assert forall|w: Seq<char>, f: WordForm| #[trigger] id_prefix(l@, w, f) implies false by {
                lemma_id_prefix(l@, w, f);
            }
        }
        return None;
    }
    let word = string_of(slice_subrange(l.as_slice(), 0, p));
    let id = EntryId { word, form };
    proof {
        let w = l@.subrange(0, p as int);
        assert(word@ == w);
        assert forall|j: int| !#[trigger] has_bracket_at(w, j) by {
            if has_bracket_at(w, j) {
                assert(has_bracket_at(l@, j));
            }
        }
        assert(l@.subrange(0, q + 1) =~= id_text(w, form));
        assert forall|v: Seq<char>, f: WordForm| #[trigger] id_prefix(l@, v, f) implies id@ == (v, f) by {
            lemma_id_prefix(l@, v, f);
        }
    }
    Some((id, q + 1))
}


/// A line made of a valid identity's rendering and a tail begins with that identity, and the
/// tail is what follows it.
proof fn lemma_split_after_id(w: Seq<char>, f: WordForm, tail: Seq<char>)
    requires
        valid_word(w),
    ensures
        id_prefix(id_text(w, f) + tail, w, f),
        (id_text(w, f) + tail).subrange(
            id_text(w, f).len() as int,
            (id_text(w, f) + tail).len() as int,
        ) == tail,
{
    let u = id_text(w, f);
    assert((u + tail).subrange(0, u.len() as int) =~= u);
    assert((u + tail).subrange(u.len() as int, (u + tail).len() as int) =~= tail);
}

/// The separator `" - "` occurs at `q`, and `l[q + 3..]` is `tail`.
proof fn lemma_separator_then(l: Seq<char>, q: int, tail: Seq<char>)
    requires
        0 <= q <= l.len(),
        l.subrange(q, l.len() as int) == separator() + tail,
    ensures
        occurs_at(l, q, separator()),
        l.subrange(q + 3, l.len() as int) == tail,
{
    let s = separator() + tail;
    assert(separator().len() == 3);
    assert(s.len() == 3 + tail.len());
    assert(l.subrange(q, l.len() as int).len() == s.len());
    assert forall|i: int| 0 <= i < 3 implies l[q + i] == #[trigger] separator()[i] by {
        assert(l.subrange(q, l.len() as int)[i] == l[q + i]);
    }
    assert(l.subrange(q + 3, l.len() as int) =~= s.subrange(3, s.len() as int));
    assert(s.subrange(3, s.len() as int) =~= tail);
}

/// The line is the concatenation of what `parse_id` read, the separator and the rest.
proof fn lemma_join_after_id(l: Seq<char>, w: Seq<char>, f: WordForm, q: int)
    requires
        id_prefix(l, w, f),
        q == id_text(w, f).len(),
        occurs_at(l, q, separator()),
    ensures
        l == id_text(w, f) + (separator() + l.subrange(q + 3, l.len() as int)),
{
    let u = id_text(w, f);
    let rhs = u + (separator() + l.subrange(q + 3, l.len() as int));
    assert forall|i: int| 0 <= i < l.len() implies l[i] == rhs[i] by {
        if i < q {
            assert(l.subrange(0, q)[i] == l[i]);
        } else if i < q + 3 {
            assert(separator()[i - q] == l[q + (i - q)]);
        }
    }
    assert(l =~= rhs);
}

fn separator_text() -> (r: &'static str)
    ensures
        r@ == separator(),
{
    proof {
        reveal_strlit(" - ");
    }
    let r = " - ";
    assert(r@ =~= separator());
    r
}

/// Parses one line `<word> [<form-tag>] - <definition>`, the whole of it.
pub(crate) fn parse_entry_chars(l: &Vec<char>) -> (r: Option<Entry>)
    ensures
        match r {
            Some(e) => e.wf() && l@ == entry_text(e.word@, e.form, e.definition@),
            None => !is_entry_line(l@),
        },
{
    let (id, q) = match parse_id(l) {
        Some(x) => x,
        None => {
            proof {
                if is_entry_line(l@) {
                    let (w, f, d) = choose|w: Seq<char>, f: WordForm, d: Seq<char>|
                        valid_word(w) && free_of_breaks(d) && l@ == #[trigger] entry_text(w, f, d);
                    lemma_split_after_id(w, f, separator() + d);
                }
            }
            return None;
        },
    };
    let sep_ok = matches_at(l, q, separator_text());
    assert(separator().len() == 3);
    assert(sep_ok ==> q + 3 <= l.len());
    let def_ok = sep_ok && breaks_free(l, q + 3, l.len());
    proof {
        if is_entry_line(l@) {
            let (w, f, d) = choose|w: Seq<char>, f: WordForm, d: Seq<char>|
                valid_word(w) && free_of_breaks(d) && l@ == #[trigger] entry_text(w, f, d);
            lemma_split_after_id(w, f, separator() + d);
            assert(id@ == (w, f));
            lemma_separator_then(l@, q as int, d);
        }
    }
    if !def_ok {
        return None;
    }
    let definition = string_of(slice_subrange(l.as_slice(), q + 3, l.len()));
    proof {
        lemma_join_after_id(l@, id.word@, id.form, q as int);
    }
    Some(Entry { word: id.word, definition, form: id.form })
}

/// Parses one line `<word> [<form-tag>] - <connotation-tag>`, the whole of it.
pub(crate) fn parse_connoted_chars(l: &Vec<char>) -> (r: Option<(EntryId, Connotation)>)
    ensures
        match r {
            Some((id, c)) => id.wf() && l@ == connoted_text(id.word@, id.form, c),
            None => !is_connoted_line(l@),
        },
{
    let (id, q) = match parse_id(l) {
        Some(x) => x,
        None => {
            proof {
                if is_connoted_line(l@) {
                    let (w, f, c) = choose|w: Seq<char>, f: WordForm, c: Connotation|
                        valid_word(w) && l@ == #[trigger] connoted_text(w, f, c);
                    lemma_split_after_id(w, f, separator() + connotation_tag(c));
                }
            }
            return None;
        },
    };
    let sep_ok = matches_at(l, q, separator_text());
    assert(separator().len() == 3);
    assert(sep_ok ==> q + 3 <= l.len());
    let c = if sep_ok {
        match_connotation(l, q + 3)
    } else {
        None
    };
    proof {
        if is_connoted_line(l@) {
            let (w, f, c0) = choose|w: Seq<char>, f: WordForm, c: Connotation|
                valid_word(w) && l@ == #[trigger] connoted_text(w, f, c);
            lemma_split_after_id(w, f, separator() + connotation_tag(c0));
            assert(id@ == (w, f));
            let tag = connotation_tag(c0);
            lemma_separator_then(l@, q as int, tag);
            assert forall|i: int| 0 <= i < tag.len() implies l@[q + 3 + i] == #[trigger] tag[i] by {
                assert(l@.subrange(q + 3, l@.len() as int)[i] == l@[q + 3 + i]);
            }
            assert(occurs_at(l@, q + 3, tag));
        }
    }
    match c {
        Some(c) => {
            proof {
                lemma_join_after_id(l@, id.word@, id.form, q as int);
                assert(l@.subrange(q + 3, l@.len() as int) =~= connotation_tag(c));
            }
            Some((id, c))
        },
        None => None,
    }
}

impl Entry {
    /// Parses a whole line `<word> [<form-tag>] - <definition>`. It succeeds exactly on the
    /// renderings of well-formed entries, and returns the entry that the line renders.
    pub fn parse(line: &str) -> (r: Option<Entry>)
        ensures
            match r {
                Some(e) => e.wf() && line@ == entry_text(e.word@, e.form, e.definition@),
                None => !is_entry_line(line@),
            },
    {
        parse_entry_chars(&chars_of(line))
    }
}

/// Parses a whole line `<word> [<form-tag>] - <connotation-tag>`. It succeeds exactly on the
/// renderings of well-formed connoted records, and returns the record that the line renders.
pub fn connoted_entry(line: &str) -> (r: Option<(EntryId, Connotation)>)
    ensures
        match r {
            Some((id, c)) => id.wf() && line@ == connoted_text(id.word@, id.form, c),
            None => !is_connoted_line(line@),
        },
{
    parse_connoted_chars(&chars_of(line))
}


/// Two valid identities that both begin a line are the same identity.
proof fn lemma_id_prefix_unique(t: Seq<char>, w1: Seq<char>, f1: WordForm, w2: Seq<char>, f2: WordForm)
    requires
        id_prefix(t, w1, f1),
        id_prefix(t, w2, f2),
    ensures
        w1 == w2,
        f1 == f2,
{
    lemma_id_prefix(t, w1, f1);
    lemma_id_prefix(t, w2, f2);
    if w1.len() < w2.len() {
        assert(!has_bracket_at(t, w1.len() as int));
    }
    if w2.len() < w1.len() {
        assert(!has_bracket_at(t, w2.len() as int));
    }
    assert(occurs_at(t, w1.len() + 2int, form_tag(f2)));
}

/// Round trip of entries: the rendering of a well-formed entry is an entry line, and no other
/// well-formed entry renders to that line. So `Entry::parse` applied to `Entry::render` gives
/// back the entry it was given.
pub proof fn entry_round_trip(e: Entry)
    requires
        e.wf(),
    ensures
        is_entry_line(entry_text(e.word@, e.form, e.definition@)),
        forall|w: Seq<char>, f: WordForm, d: Seq<char>|
            valid_word(w) && free_of_breaks(d) && #[trigger] entry_text(w, f, d) == entry_text(
                e.word@,
                e.form,
                e.definition@,
            ) ==> w == e.word@ && f == e.form && d == e.definition@,
{
    let t = entry_text(e.word@, e.form, e.definition@);
    assert forall|w: Seq<char>, f: WordForm, d: Seq<char>|
        valid_word(w) && free_of_breaks(d) && #[trigger] entry_text(w, f, d) == t implies w
        == e.word@ && f == e.form && d == e.definition@ by {
        lemma_split_after_id(e.word@, e.form, separator() + e.definition@);
        lemma_split_after_id(w, f, separator() + d);
        lemma_id_prefix_unique(t, w, f, e.word@, e.form);
        let q = id_text(w, f).len() as int;
        lemma_separator_then(t, q, d);
        lemma_separator_then(t, q, e.definition@);
    }
}

/// Round trip of connoted records: the rendering of a valid identity with a connotation is a
/// connoted line, and no other such pair renders to that line. So `connoted_entry` applied to
/// `render_connoted` gives back the pair it was given.
pub proof fn connoted_round_trip(id: EntryId, c: Connotation)
    requires
        id.wf(),
    ensures
        is_connoted_line(connoted_text(id.word@, id.form, c)),
        forall|w: Seq<char>, f: WordForm, c2: Connotation|
            valid_word(w) && #[trigger] connoted_text(w, f, c2) == connoted_text(
                id.word@,
                id.form,
                c,
            ) ==> w == id.word@ && f == id.form && c2 == c,
{
    let t = connoted_text(id.word@, id.form, c);
    assert forall|w: Seq<char>, f: WordForm, c2: Connotation|
        valid_word(w) && #[trigger] connoted_text(w, f, c2) == t implies w == id.word@ && f
        == id.form && c2 == c by {
        lemma_split_after_id(id.word@, id.form, separator() + connotation_tag(c));
        lemma_split_after_id(w, f, separator() + connotation_tag(c2));
        lemma_id_prefix_unique(t, w, f, id.word@, id.form);
        let q = id_text(w, f).len() as int;
        lemma_separator_then(t, q, connotation_tag(c));
        lemma_separator_then(t, q, connotation_tag(c2));
        let a = connotation_tag(c);
        let b = connotation_tag(c2);
        assert(a == b);
        assert(a[0] == b[0] && a[2] == b[2]);
    }
}

} // verus!
