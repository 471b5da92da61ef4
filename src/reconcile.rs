use vstd::prelude::*;

use crate::entries::{
    connotation_tag, connoted_text, form_tag, is_line_break, render_connoted, valid_word,
    is_connoted_line, Connotation, Entry, EntryId, IdModel, WordForm,
};
use crate::lines::{
    body_of, file_lines, lemma_append_line, needs_line_ending, parse_connoted_lines,
    split_state, ParseError,
};
use crate::store::{records_map, records_model};
use crate::store::ConnotationMap;

verus! {

/// The identities of a vocabulary, in order.
pub open spec fn ids_of(entries: Seq<Entry>) -> Seq<IdModel> {
    entries.map_values(|e: Entry| (e.word@, e.form))
}

/// Prior knowledge that is left once the first `n` entries have each consumed the record of
/// their identity.
pub open spec fn prior_left(ids: Seq<IdModel>, prior: Map<IdModel, Connotation>, n: int) -> Map<
    IdModel,
    Connotation,
> {
    Map::new(|k: IdModel| prior.contains_key(k) && !ids.take(n).contains(k), |k: IdModel| prior[k])
}

/// Entry `i` is served from prior knowledge: its identity has a record that no earlier entry
/// consumed. Every other entry goes to the classifier.
pub open spec fn served(ids: Seq<IdModel>, prior: Map<IdModel, Connotation>, i: int) -> bool {
    prior.contains_key(ids[i]) && !ids.take(i).contains(ids[i])
}

/// The connotation that entry `i` receives: the prior record where it is served, else the
/// classifier's answer for it.
pub open spec fn resolved_at(
    ids: Seq<IdModel>,
    prior: Map<IdModel, Connotation>,
    answers: Seq<Connotation>,
    i: int,
) -> Connotation {
    if served(ids, prior, i) {
        prior[ids[i]]
    } else {
        answers[i]
    }
}

/// The result map after the first `n` entries, each entry setting its identity in turn.
pub open spec fn resolved_upto(
    ids: Seq<IdModel>,
    prior: Map<IdModel, Connotation>,
    answers: Seq<Connotation>,
    n: nat,
) -> Map<IdModel, Connotation>
    decreases n,
{
    if n == 0 {
        Map::empty()
    } else {
        resolved_upto(ids, prior, answers, (n - 1) as nat).insert(
            ids[n - 1],
            resolved_at(ids, prior, answers, n - 1),
        )
    }
}

/// The result of reconciling the vocabulary `ids` against `prior`, where `answers[i]` is what
/// the classifier says of entry `i` when it is asked.
pub open spec fn resolved(
    ids: Seq<IdModel>,
    prior: Map<IdModel, Connotation>,
    answers: Seq<Connotation>,
) -> Map<IdModel, Connotation> {
    resolved_upto(ids, prior, answers, ids.len())
}

/// The line that records a classification in the connotation store.
pub open spec fn record_line(id: IdModel, c: Connotation) -> Seq<char> {
    connoted_text(id.0, id.1, c).push('\n')
}

/// What to append to the store `store` to record `c` for `id`: a line ending first where the
/// store's last line has none, then the record line.
pub open spec fn store_addition(store: Seq<char>, id: IdModel, c: Connotation) -> Seq<char> {
    if store.len() > 0 && store.last() != '\n' {
        seq!['\n'] + record_line(id, c)
    } else {
        record_line(id, c)
    }
}

/// Reconciliation of a vocabulary against prior knowledge, one step at a time. `advance`
/// serves entries from prior knowledge until one needs the classifier; `resolve` takes the
/// classifier's answer and hands back the line to append to the store; `finish` gives the
/// result once every entry is resolved.
pub struct Reconciliation {
    entries: Vec<Entry>,
    next: usize,
    pending: bool,
    prior: ConnotationMap,
    result: ConnotationMap,
    initial: Ghost<Map<IdModel, Connotation>>,
    answers: Ghost<Seq<Connotation>>,
}

impl Reconciliation {
    /// The vocabulary being reconciled.
    pub closed spec fn entries(&self) -> Seq<Entry> {
        self.entries@
    }

    /// The vocabulary's identities.
    pub open spec fn vocabulary(&self) -> Seq<IdModel> {
        ids_of(self.entries())
    }

    /// The prior knowledge that reconciliation started from.
    pub closed spec fn prior_knowledge(&self) -> Map<IdModel, Connotation> {
        self.initial@
    }

    /// How many entries are resolved.
    pub closed spec fn position(&self) -> nat {
        self.next as nat
    }

    /// The connotation given to each resolved entry, in order (for a served entry, its prior
    /// record).
    pub closed spec fn answers(&self) -> Seq<Connotation> {
        self.answers@
    }

    /// The entry at `position()` waits for the classifier.
    pub closed spec fn awaiting(&self) -> bool {
        self.pending
    }

    pub closed spec fn wf(&self) -> bool {
        let ids = ids_of(self.entries@);
        &&& self.prior.wf()
        &&& self.result.wf()
        &&& self.next <= self.entries@.len()
        &&& forall|i: int| 0 <= i < self.entries@.len() ==> (#[trigger] self.entries@[i]).wf()
        &&& self.answers@.len() == self.next
        &&& self.prior@ == prior_left(ids, self.initial@, self.next as int)
        &&& self.result@ == resolved_upto(ids, self.initial@, self.answers@, self.next as nat)
        &&& self.pending ==> self.next < self.entries@.len() && !served(
            ids,
            self.initial@,
            self.next as int,
        )
    }

    /// Starts reconciling `entries` against `prior`.
    pub fn new(entries: Vec<Entry>, prior: ConnotationMap) -> (r: Reconciliation)
        requires
            prior.wf(),
            forall|i: int| 0 <= i < entries@.len() ==> (#[trigger] entries@[i]).wf(),
        ensures
            r.wf(),
            r.entries() == entries@,
            r.prior_knowledge() == prior@,
            r.position() == 0,
            r.answers().len() == 0,
            !r.awaiting(),
    {
        let ghost initial = prior@;
        let r = Reconciliation {
            entries,
            next: 0,
            pending: false,
            prior,
            result: ConnotationMap::new(),
            initial: Ghost(initial),
            answers: Ghost(Seq::empty()),
        };
        assert(r.prior@ =~= prior_left(ids_of(r.entries@), initial, 0));
        r
    }

    /// Serves entries from prior knowledge, in order, until one needs the classifier (that
    /// entry is returned) or every entry is resolved (`None`).
    pub fn advance(&mut self) -> (r: Option<Entry>)
        requires
            old(self).wf(),
        ensures
            final(self).wf(),
            final(self).entries() == old(self).entries(),
            final(self).prior_knowledge() == old(self).prior_knowledge(),
            old(self).position() <= final(self).position() <= final(self).vocabulary().len(),
            final(self).answers().len() == final(self).position(),
            final(self).answers().take(old(self).position() as int) == old(self).answers(),
            forall|i: int|
                old(self).position() <= i < final(self).position() ==> served(
                    final(self).vocabulary(),
                    final(self).prior_knowledge(),
                    i,
                ),
            match r {
                Some(e) => final(self).awaiting() && final(self).position()
                    < final(self).vocabulary().len() && !served(
                    final(self).vocabulary(),
                    final(self).prior_knowledge(),
                    final(self).position() as int,
                ) && e.word@ == final(self).entries()[final(self).position() as int].word@
                    && e.definition@ == final(self).entries()[final(self).position() as int].definition@
                    && e.form == final(self).entries()[final(self).position() as int].form,
                None => !final(self).awaiting() && final(self).position()
                    == final(self).vocabulary().len(),
            },
    {
        let ghost ids = ids_of(self.entries@);
        let ghost start = self.next;
        assert(self.answers@.take(start as int) =~= self.answers@);
        while self.next < self.entries.len() && !self.pending
            invariant
                self.wf(),
                ids == ids_of(self.entries@),
                self.initial@ == old(self).initial@,
                self.entries@ == old(self).entries@,
                start <= self.next,
                self.answers@.take(start as int) == old(self).answers@,
                forall|i: int| start <= i < self.next ==> served(ids, self.initial@, i),
                old(self).pending ==> self.pending && self.next == start,
            decreases self.entries@.len() - self.next, if self.pending { 0int } else { 1int },
        {
            let n = self.next;
            let id = self.entries[n].id();
            assert(ids[n as int] == id@);
            match self.prior.remove(&id) {
                Some(c) => {
                    self.result.insert(id, c);
                    let ghost old_answers = self.answers@;
                    self.answers = Ghost(self.answers@.push(c));
                    self.next = n + 1;
                    proof {
                        assert(served(ids, self.initial@, n as int));
                        lemma_prior_left_step(ids, self.initial@, n as int);
                        assert(self.answers@.take(n as int) =~= old_answers);
                        lemma_resolved_upto_frame(
                            ids,
                            self.initial@,
                            old_answers,
                            self.answers@,
                            n as nat,
                        );
                        assert(self.answers@.take(start as int) =~= old_answers.take(start as int));
                    }
                },
                None => {
                    self.pending = true;
                },
            }
        }
        if self.pending {
            let e = &self.entries[self.next];
            Some(Entry {
                word: e.word.clone(),
                definition: e.definition.clone(),
                form: e.form,
            })
        } else {
            None
        }
    }

    /// Records the classifier's answer for the entry that waits for it, and returns the text to
    /// append to the connotation store whose current text is `store`: its record line, after a
    /// line ending where the store's last line has none. Where every line of the store is a
    /// connoted line, the store keeps its lines and gains exactly the record. Does nothing and
    /// returns `None` when no entry waits.
    pub fn resolve(&mut self, c: Connotation, store: &str) -> (r: Option<String>)
        requires
            old(self).wf(),
        ensures
            final(self).wf(),
            final(self).entries() == old(self).entries(),
            final(self).prior_knowledge() == old(self).prior_knowledge(),
            final(self).position() <= final(self).vocabulary().len(),
            final(self).answers().len() == final(self).position(),
            !final(self).awaiting(),
            old(self).awaiting() ==> (r matches Some(text) && final(self).position()
                == old(self).position() + 1 && final(self).answers() == old(self).answers().push(c)
                && text@ == store_addition(
                    store@,
                    old(self).vocabulary()[old(self).position() as int],
                    c,
                ) && ((forall|i: int|
                    0 <= i < file_lines(store@).len() ==> is_connoted_line(
                        #[trigger] file_lines(store@)[i],
                    )) ==> file_lines(store@ + text@) == file_lines(store@).push(
                    connoted_text(
                        old(self).vocabulary()[old(self).position() as int].0,
                        old(self).vocabulary()[old(self).position() as int].1,
                        c,
                    ),
                ))),
            !old(self).awaiting() ==> r is None && final(self).position() == old(self).position()
                && final(self).answers() == old(self).answers(),
    {
        if !self.pending {
            return None;
        }
        let ghost ids = ids_of(self.entries@);
        let n = self.next;
        assert(n < self.entries.len());
        let id = self.entries[n].id();
        assert(ids[n as int] == id@);
        let newline = "\n";
        proof {
            reveal_strlit("\n");
        }
        let mut text = String::new();
        if needs_line_ending(store) {
            text.append(newline);
        }
        text.append(render_connoted(&id, c).as_str());
        text.append(newline);
        let ghost old_answers = self.answers@;
        self.result.insert(id, c);
        self.answers = Ghost(self.answers@.push(c));
        self.next = n + 1;
        self.pending = false;
        proof {
            lemma_prior_left_step(ids, self.initial@, n as int);
            assert(self.prior@ =~= prior_left(ids, self.initial@, n + 1));
            assert(self.answers@.take(n as int) =~= old_answers);
            lemma_resolved_upto_frame(ids, self.initial@, old_answers, self.answers@, n as nat);
            assert(text@ =~= store_addition(store@, ids[n as int], c));
            assert(self.entries@[n as int].wf());
            if forall|i: int|
                0 <= i < file_lines(store@).len() ==> is_connoted_line(
                    #[trigger] file_lines(store@)[i],
                ) {
                record_appends_one_line(store@, ids[n as int], c);
            }
        }
        Some(text)
    }

    /// The result, once every entry is resolved: exactly `resolved` of the vocabulary, the
    /// prior knowledge and the answers. `None` while entries are left.
    pub fn finish(self) -> (r: Option<ConnotationMap>)
        requires
            self.wf(),
        ensures
            self.position() == self.vocabulary().len() ==> (r matches Some(m) && m.wf() && m@
                == resolved(self.vocabulary(), self.prior_knowledge(), self.answers())),
            self.position() < self.vocabulary().len() ==> r is None,
            self.position() <= self.vocabulary().len(),
            self.answers().len() == self.position(),
    {
        if self.next < self.entries.len() {
            None
        } else {
            Some(self.result)
        }
    }
}

/// Consuming the record of entry `n` takes its identity out of what is left.
proof fn lemma_prior_left_step(ids: Seq<IdModel>, prior: Map<IdModel, Connotation>, n: int)
    requires
        0 <= n < ids.len(),
    ensures
        prior_left(ids, prior, n + 1) == prior_left(ids, prior, n).remove(ids[n]),
{
    lemma_take_contains_step(ids, n);
    assert(prior_left(ids, prior, n + 1) =~= prior_left(ids, prior, n).remove(ids[n]));
}

/// Reads a connotation store into prior knowledge: the records of its lines, inserted in
/// order, the last record of an identity winning. Fails exactly when `parse_connoted_lines`
/// does, on the same line.
pub fn load_prior(text: &str) -> (r: Result<ConnotationMap, ParseError>)
    ensures
        match r {
            Ok(m) => m.wf() && exists|v: Seq<(EntryId, Connotation)>|
                v.len() == file_lines(text@).len() && (forall|i: int|
                    0 <= i < v.len() ==> file_lines(text@)[i] == connoted_text(
                        (#[trigger] v[i]).0.word@,
                        v[i].0.form,
                        v[i].1,
                    )) && m@ == records_map(records_model(v)),
            Err(e) => e.line < file_lines(text@).len() && !is_connoted_line(
                file_lines(text@)[e.line as int],
            ) && forall|j: int|
                0 <= j < e.line ==> is_connoted_line(#[trigger] file_lines(text@)[j]),
        },
        r is Ok <==> forall|i: int|
            0 <= i < file_lines(text@).len() ==> is_connoted_line(#[trigger] file_lines(text@)[i]),
{
    match parse_connoted_lines(text) {
        Ok(records) => {
            Ok(ConnotationMap::from_records(records))
        },
        Err(e) => Err(e),
    }
}

/// `resolved_upto` over the first `n + 1` entries reads only the first `n + 1` answers.
proof fn lemma_resolved_upto_frame(
    ids: Seq<IdModel>,
    prior: Map<IdModel, Connotation>,
    a: Seq<Connotation>,
    b: Seq<Connotation>,
    n: nat,
)
    requires
        a.len() == n,
        b.len() == n + 1,
        b.take(n as int) == a,
    ensures
        resolved_upto(ids, prior, b, n + 1) == resolved_upto(ids, prior, a, n).insert(
            ids[n as int],
            resolved_at(ids, prior, b, n as int),
        ),
{
    lemma_resolved_upto_prefix(ids, prior, a, b, n);
}

/// `resolved_upto` over `n` entries agrees on any two answer lists that agree on their first
/// `n` answers.
proof fn lemma_resolved_upto_prefix(
    ids: Seq<IdModel>,
    prior: Map<IdModel, Connotation>,
    a: Seq<Connotation>,
    b: Seq<Connotation>,
    n: nat,
)
    requires
        a.len() >= n,
        b.len() >= n,
        forall|i: int| 0 <= i < n ==> a[i] == b[i],
    ensures
        resolved_upto(ids, prior, a, n) == resolved_upto(ids, prior, b, n),
    decreases n,
{
    if n > 0 {
        lemma_resolved_upto_prefix(ids, prior, a, b, (n - 1) as nat);
    }
}


/// The first `n + 1` identities hold `k` exactly when the first `n` do or the next one is `k`.
proof fn lemma_take_contains_step(ids: Seq<IdModel>, n: int)
    requires
        0 <= n < ids.len(),
    ensures
        forall|k: IdModel|
            #[trigger] ids.take(n + 1).contains(k) <==> (ids.take(n).contains(k) || k == ids[n]),
{
    let s = ids.take(n);
    let t = ids.take(n + 1);
    assert forall|k: IdModel| #[trigger] t.contains(k) <==> (s.contains(k) || k == ids[n]) by {
        if t.contains(k) {
            let i = choose|i: int| 0 <= i < t.len() && t[i] == k;
            if i < n {
                assert(s[i] == k);
            }
        }
        if s.contains(k) {
            let i = choose|i: int| 0 <= i < s.len() && s[i] == k;
            assert(t[i] == k);
        }
        if k == ids[n] {
            assert(t[n] == k);
        }
    }
}

/// The result of the first `n` entries holds `k` exactly when one of them has identity `k`.
proof fn lemma_resolved_upto_domain(
    ids: Seq<IdModel>,
    prior: Map<IdModel, Connotation>,
    answers: Seq<Connotation>,
    n: nat,
)
    requires
        n <= ids.len(),
    ensures
        forall|k: IdModel|
            #[trigger] resolved_upto(ids, prior, answers, n).contains_key(k) <==> ids.take(
                n as int,
            ).contains(k),
    decreases n,
{
    if n > 0 {
        let m = n - 1;
        lemma_resolved_upto_domain(ids, prior, answers, m as nat);
        lemma_take_contains_step(ids, m);
        assert(m + 1 == n);
        assert forall|k: IdModel|
            #[trigger] resolved_upto(ids, prior, answers, n).contains_key(k) <==> ids.take(
                n as int,
            ).contains(k) by {
            assert(ids.take(m + 1).contains(k) <==> (ids.take(m).contains(k) || k == ids[m]));
            assert(resolved_upto(ids, prior, answers, n) == resolved_upto(
                ids,
                prior,
                answers,
                m as nat,
            ).insert(ids[m], resolved_at(ids, prior, answers, m)));
            assert(resolved_upto(ids, prior, answers, m as nat).contains_key(k) <==> ids.take(
                m,
            ).contains(k));
        }
    } else {
        assert forall|k: IdModel| !ids.take(0).contains(k) by {}
    }
}

/// Without repeated identities, entry `i` alone sets its identity in the result.
proof fn lemma_resolved_upto_value(
    ids: Seq<IdModel>,
    prior: Map<IdModel, Connotation>,
    answers: Seq<Connotation>,
    n: nat,
    i: int,
)
    requires
        ids.no_duplicates(),
        0 <= i < n <= ids.len(),
    ensures
        resolved_upto(ids, prior, answers, n)[ids[i]] == resolved_at(ids, prior, answers, i),
    decreases n,
{
    if i < n - 1 {
        lemma_resolved_upto_value(ids, prior, answers, (n - 1) as nat, i);
        assert(ids[n - 1] != ids[i]);
    }
}

/// Totality: the result holds exactly the identities of the vocabulary, each with one
/// connotation.
pub proof fn resolved_covers_vocabulary(
    ids: Seq<IdModel>,
    prior: Map<IdModel, Connotation>,
    answers: Seq<Connotation>,
)
    ensures
        forall|k: IdModel| #[trigger]
            resolved(ids, prior, answers).contains_key(k) <==> ids.contains(k),
{
    lemma_resolved_upto_domain(ids, prior, answers, ids.len());
    assert(ids.take(ids.len() as int) =~= ids);
}

/// Prior knowledge takes precedence: in a vocabulary without repeated identities, an entry
/// whose identity has a prior record is served from that record, never sent to the
/// classifier, and the result gives its identity exactly the recorded connotation.
pub proof fn prior_knowledge_precedence(
    ids: Seq<IdModel>,
    prior: Map<IdModel, Connotation>,
    answers: Seq<Connotation>,
    i: int,
)
    requires
        ids.no_duplicates(),
        0 <= i < ids.len(),
        prior.contains_key(ids[i]),
    ensures
        served(ids, prior, i),
        resolved(ids, prior, answers)[ids[i]] == prior[ids[i]],
{
    if ids.take(i).contains(ids[i]) {
        let j = choose|j: int| 0 <= j < i && ids.take(i)[j] == ids[i];
        assert(ids[j] == ids[i]);
    }
    lemma_resolved_upto_value(ids, prior, answers, ids.len(), i);
}

/// Idempotence: in a vocabulary without repeated identities, a second reconciliation whose
/// prior knowledge is the result of the first serves every entry from it, so the classifier is
/// asked nothing, and it returns the same map, whatever the classifier would have answered.
pub proof fn reconciliation_idempotent(
    ids: Seq<IdModel>,
    prior: Map<IdModel, Connotation>,
    answers: Seq<Connotation>,
    later_answers: Seq<Connotation>,
)
    requires
        ids.no_duplicates(),
    ensures
        forall|i: int|
            0 <= i < ids.len() ==> #[trigger] served(ids, resolved(ids, prior, answers), i),
        resolved(ids, resolved(ids, prior, answers), later_answers) == resolved(
            ids,
            prior,
            answers,
        ),
{
    let r = resolved(ids, prior, answers);
    let r2 = resolved(ids, r, later_answers);
    resolved_covers_vocabulary(ids, prior, answers);
    resolved_covers_vocabulary(ids, r, later_answers);
    assert forall|i: int| 0 <= i < ids.len() implies #[trigger] served(ids, r, i) && r2[ids[i]]
        == r[ids[i]] by {
        assert(ids.contains(ids[i]));
        prior_knowledge_precedence(ids, r, later_answers, i);
    }
    assert forall|k: IdModel| #[trigger] r2.contains_key(k) implies r2[k] == r[k] by {
        let i = choose|i: int| 0 <= i < ids.len() && ids[i] == k;
        assert(served(ids, r, i));
    }
    assert(r2 =~= r);
}


/// A record line holds no `'\n'` and ends in the last letter of the connotation's tag.
proof fn lemma_connoted_text_shape(w: Seq<char>, f: WordForm, c: Connotation)
    requires
        valid_word(w),
    ensures
        connoted_text(w, f, c).len() > 0,
        connoted_text(w, f, c).last() != '\r',
        forall|i: int|
            0 <= i < connoted_text(w, f, c).len() ==> #[trigger] connoted_text(w, f, c)[i]
                != '\n',
{
    let line = connoted_text(w, f, c);
    let tag = form_tag(f);
    let ct = connotation_tag(c);
    assert(line =~= w + seq![' ', '['] + tag + seq![']'] + seq![' ', '-', ' '] + ct);
    assert forall|i: int| 0 <= i < line.len() implies line[i] != '\n' by {
        if i < w.len() {
            assert(line[i] == w[i]);
            assert(!is_line_break(w[i]));
        }
    }
    assert(line.last() == ct.last());
}

/// Append-only persistence: appending `store_addition` for a classification to a store whose
/// every line is a connoted line keeps every line of the store as it was and adds exactly one,
/// the canonical rendering of the record.
pub proof fn record_appends_one_line(store: Seq<char>, id: IdModel, c: Connotation)
    requires
        valid_word(id.0),
        forall|i: int|
            0 <= i < file_lines(store).len() ==> is_connoted_line(#[trigger] file_lines(store)[i]),
    ensures
        file_lines(store + store_addition(store, id, c)) == file_lines(store).push(
            connoted_text(id.0, id.1, c),
        ),
{
    let line = connoted_text(id.0, id.1, c);
    lemma_connoted_text_shape(id.0, id.1, c);
    if store.len() == 0 || store.last() == '\n' {
        lemma_append_line(store, line);
    } else {
        // The store's last line is open; it ends with the store's last character, which a
        // connoted line never has as `'\r'`.
        assert(body_of(store) == store);
        let ls = file_lines(store);
        assert(ls.last() == split_state(store).1);
        assert(split_state(store).1.last() == store.last());
        let last = ls[ls.len() - 1];
        assert(is_connoted_line(last));
        let (w, f, c2) = choose|w: Seq<char>, f: WordForm, c2: Connotation|
            valid_word(w) && last == #[trigger] connoted_text(w, f, c2);
        lemma_connoted_text_shape(w, f, c2);
        let closed = store.push('\n');
        assert(closed.drop_last() =~= store);
        assert(body_of(closed) =~= store);
        assert(file_lines(closed) == file_lines(store));
        lemma_append_line(closed, line);
        assert(store + store_addition(store, id, c) =~= closed + line.push('\n'));
    }
}

} // verus!
