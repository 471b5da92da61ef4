use vstd::prelude::*;

verus! {

/// How a word is felt: the classification that this library resolves.
#[derive(Clone, Copy, Debug, PartialEq, Eq, Hash, Structural)]
pub enum Connotation {
    Positive,
    Neutral,
    Negative,
}

/// Grammatical category of a vocabulary entry.
#[derive(Clone, Copy, Debug, PartialEq, Eq, Hash, Structural)]
pub enum WordForm {
    Noun,
    Adjective,
    Verb,
    Adverb,
    Phrase,
    Saying,
    Abbreviation,
}

/// The identity of a vocabulary item: its word and its form.
#[derive(Clone, Debug, PartialEq, Eq, Hash)]
pub struct EntryId {
    pub word: String,
    pub form: WordForm,
}

/// A full vocabulary record.
#[derive(Clone, Debug, PartialEq, Eq)]
pub struct Entry {
    pub word: String,
    pub definition: String,
    pub form: WordForm,
}

/// The mathematical identity of an entry: word text and form.
pub type IdModel = (Seq<char>, WordForm);

/// The textual tag of a form.
pub open spec fn form_tag(f: WordForm) -> Seq<char> {
    match f {
        WordForm::Noun => seq!['n', 'o', 'u', 'n'],
        WordForm::Adjective => seq!['a', 'd', 'j'],
        WordForm::Verb => seq!['v', 'e', 'r', 'b'],
        WordForm::Adverb => seq!['a', 'd', 'v'],
        WordForm::Phrase => seq!['p', 'h', 'r', 'a', 's', 'e'],
        WordForm::Saying => seq!['s', 'a', 'y'],
        WordForm::Abbreviation => seq!['a', 'b', 'b', 'r'],
    }
}

/// The textual tag of a connotation.
pub open spec fn connotation_tag(c: Connotation) -> Seq<char> {
    match c {
        Connotation::Positive => seq!['p', 'o', 's', 'i', 't', 'i', 'v', 'e'],
        Connotation::Neutral => seq!['n', 'e', 'u', 't', 'r', 'a', 'l'],
        Connotation::Negative => seq!['n', 'e', 'g', 'a', 't', 'i', 'v', 'e'],
    }
}

pub open spec fn is_line_break(c: char) -> bool {
    c == '\n' || c == '\r'
}

/// No character of `s` ends a line.
pub open spec fn free_of_breaks(s: Seq<char>) -> bool {
    forall|i: int| 0 <= i < s.len() ==> !is_line_break(#[trigger] s[i])
}

/// The word/form delimiter `" ["` starts at index `i` of `s`.
pub open spec fn has_bracket_at(s: Seq<char>, i: int) -> bool {
    0 <= i && i + 1 < s.len() && s[i] == ' ' && s[i + 1] == '['
}

/// A word that the grammar can carry: no delimiter inside it, no line break.
pub open spec fn valid_word(w: Seq<char>) -> bool {
    &&& free_of_breaks(w)
    &&& forall|i: int| !#[trigger] has_bracket_at(w, i)
}

/// `<word> [<form-tag>]`
pub open spec fn id_text(w: Seq<char>, f: WordForm) -> Seq<char> {
    w + seq![' ', '['] + form_tag(f) + seq![']']
}

/// `" - "`, between an identity and what follows it on a line.
pub open spec fn separator() -> Seq<char> {
    seq![' ', '-', ' ']
}

/// `<word> [<form-tag>] - <definition>`
pub open spec fn entry_text(w: Seq<char>, f: WordForm, d: Seq<char>) -> Seq<char> {
    id_text(w, f) + (separator() + d)
}

/// `<word> [<form-tag>] - <connotation-tag>`
pub open spec fn connoted_text(w: Seq<char>, f: WordForm, c: Connotation) -> Seq<char> {
    id_text(w, f) + (separator() + connotation_tag(c))
}

/// The line is the rendering of some well-formed entry.
pub open spec fn is_entry_line(t: Seq<char>) -> bool {
    exists|w: Seq<char>, f: WordForm, d: Seq<char>|
        valid_word(w) && free_of_breaks(d) && t == #[trigger] entry_text(w, f, d)
}

/// The line is the rendering of some well-formed connoted record.
pub open spec fn is_connoted_line(t: Seq<char>) -> bool {
    exists|w: Seq<char>, f: WordForm, c: Connotation|
        valid_word(w) && t == #[trigger] connoted_text(w, f, c)
}

impl View for EntryId {
    type V = IdModel;

    open spec fn view(&self) -> IdModel {
        (self.word@, self.form)
    }
}

impl EntryId {
    /// The identity can be written as a line prefix and parsed back.
    pub open spec fn wf(&self) -> bool {
        valid_word(self.word@)
    }

    /// A copy with the same word and form.
    pub fn duplicate(&self) -> (r: EntryId)
        ensures
            r@ == self@,
    {
        EntryId { word: self.word.clone(), form: self.form }
    }

    /// Identity comparison: equal words and equal forms.
    pub fn same_as(&self, other: &EntryId) -> (r: bool)
        ensures
            r == (self@ == other@),
    {
        self.word == other.word && self.form == other.form
    }

    /// Canonical rendering `<word> [<form-tag>]`.
    pub fn render(&self) -> (r: String)
        ensures
            r@ == id_text(self.word@, self.form),
    {
        let mut r = self.word.clone();
        let open = " [";
        let close = "]";
        proof {
            reveal_strlit(" [");
            reveal_strlit("]");
            assert(open@ =~= seq![' ', '[']);
            assert(close@ =~= seq![']']);
        }
        r.append(open);
        r.append(self.form.tag());
        r.append(close);
        r
    }
}

impl Entry {
    /// Word and definition can be written on one line and parsed back.
    pub open spec fn wf(&self) -> bool {
        valid_word(self.word@) && free_of_breaks(self.definition@)
    }

    /// The identity of this entry.
    pub fn id(&self) -> (r: EntryId)
        ensures
            r@ == (self.word@, self.form),
    {
        EntryId { word: self.word.clone(), form: self.form }
    }

    /// Canonical rendering `<word> [<form-tag>] - <definition>`.
    pub fn render(&self) -> (r: String)
        ensures
            r@ == entry_text(self.word@, self.form, self.definition@),
    {
        let mut r = self.id().render();
        let sep = " - ";
        proof {
            reveal_strlit(" - ");
            assert(sep@ =~= separator());
        }
        r.append(sep);
        r.append(self.definition.as_str());
        assert(r@ =~= entry_text(self.word@, self.form, self.definition@));
        r
    }
}

impl WordForm {
    /// The fixed textual tag of this form.
    pub fn tag(&self) -> (r: &'static str)
        ensures
            r@ == form_tag(*self),
    {
        match self {
            WordForm::Noun => {
                proof { reveal_strlit("noun"); }
                let r = "noun";
                assert(r@ =~= form_tag(*self));
                r
            },
            WordForm::Adjective => {
                proof { reveal_strlit("adj"); }
                let r = "adj";
                assert(r@ =~= form_tag(*self));
                r
            },
            WordForm::Verb => {
                proof { reveal_strlit("verb"); }
                let r = "verb";
                assert(r@ =~= form_tag(*self));
                r
            },
            WordForm::Adverb => {
                proof { reveal_strlit("adv"); }
                let r = "adv";
                assert(r@ =~= form_tag(*self));
                r
            },
            WordForm::Phrase => {
                proof { reveal_strlit("phrase"); }
                let r = "phrase";
                assert(r@ =~= form_tag(*self));
                r
            },
            WordForm::Saying => {
                proof { reveal_strlit("say"); }
                let r = "say";
                assert(r@ =~= form_tag(*self));
                r
            },
            WordForm::Abbreviation => {
                proof { reveal_strlit("abbr"); }
                let r = "abbr";
                assert(r@ =~= form_tag(*self));
                r
            },
        }
    }
}

impl Connotation {
    /// The fixed textual tag of this connotation.
    pub fn tag(&self) -> (r: &'static str)
        ensures
            r@ == connotation_tag(*self),
    {
        match self {
            Connotation::Positive => {
                proof { reveal_strlit("positive"); }
                let r = "positive";
                assert(r@ =~= connotation_tag(*self));
                r
            },
            Connotation::Neutral => {
                proof { reveal_strlit("neutral"); }
                let r = "neutral";
                assert(r@ =~= connotation_tag(*self));
                r
            },
            Connotation::Negative => {
                proof { reveal_strlit("negative"); }
                let r = "negative";
                assert(r@ =~= connotation_tag(*self));
                r
            },
        }
    }
}

/// Canonical rendering of a connoted record: `<word> [<form-tag>] - <connotation-tag>`.
pub fn render_connoted(id: &EntryId, c: Connotation) -> (r: String)
    ensures
        r@ == connoted_text(id.word@, id.form, c),
{
    let mut r = id.render();
    let sep = " - ";
    proof {
        reveal_strlit(" - ");
        assert(sep@ =~= separator());
    }
    r.append(sep);
    r.append(c.tag());
    assert(r@ =~= connoted_text(id.word@, id.form, c));
    r
}

} // verus!
