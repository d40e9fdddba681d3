//! What the query database does, as mathematics.
//!
//! A [`Store`] is everything the database knows. [`serve`] says what becomes of
//! it when a query is asked: whether the memo is confirmed or the body runs,
//! which other queries are served on the way, and what the log says of it.
//!
//! [`coherent`] is what every operation keeps. It is why a memo that has been
//! confirmed can be returned without running anything: see
//! [`lemma_current_is_right`].
use crate::db::{DepKey, FileId};
use crate::symbol;
use crate::text;
use crate::token;
use crate::token::{LexError, Token};
use vstd::prelude::*;

pub mod laws;

verus! {

/// What a query answers.
pub enum Answer {
    Count(nat),
    Flag(bool),
    Tokens { tokens: Seq<Token>, errors: Seq<LexError> },
}

/// A memoized answer, the revisions bounding its validity, and what was read
/// while computing it.
pub struct Record {
    pub answer: Answer,
    /// When the answer last differed.
    pub changed_at: nat,
    /// When the answer was last known to be current.
    pub verified_at: nat,
    pub deps: Seq<DepKey>,
}

/// A text, and when it was last written.
pub struct Input {
    pub text: Seq<char>,
    pub changed_at: nat,
}

/// How a query was served, and which.
pub enum Happening {
    Executed(Seq<char>),
    Reused(Seq<char>),
}

/// The reads of one query that is being computed.
pub struct Frame {
    /// The query, or `None` where the reads belong to no query.
    pub key: Option<DepKey>,
    pub deps: Seq<DepKey>,
}

/// Everything that the database knows.
#[verifier::ext_equal]
pub struct Store {
    pub revision: nat,
    pub inputs: Map<FileId, Input>,
    pub memos: Map<DepKey, Record>,
    pub names: Seq<Seq<char>>,
    pub log: Seq<Happening>,
}

/// The file that `key` is about.
pub open spec fn file_of(key: DepKey) -> FileId {
    match key {
        DepKey::SourceText(file) => file,
        DepKey::TokenCount(file) => file,
        DepKey::IsTrivial(file) => file,
        DepKey::Weight(file) => file,
        DepKey::Lexed(file) => file,
    }
}

/// What computing `key` reads, in order.
pub open spec fn dependencies(key: DepKey) -> Seq<DepKey> {
    match key {
        DepKey::SourceText(file) => seq![],
        DepKey::TokenCount(file) => seq![DepKey::SourceText(file)],
        DepKey::IsTrivial(file) => seq![DepKey::TokenCount(file)],
        DepKey::Weight(file) => seq![DepKey::TokenCount(file), DepKey::IsTrivial(file)],
        DepKey::Lexed(file) => seq![DepKey::SourceText(file)],
    }
}

/// How far `key` is from the inputs. It is further than anything it reads, so
/// that no query can come to depend on itself.
pub open spec fn rank(key: DepKey) -> nat {
    match key {
        DepKey::SourceText(_) => 0,
        DepKey::TokenCount(_) => 1,
        DepKey::IsTrivial(_) => 2,
        DepKey::Weight(_) => 3,
        DepKey::Lexed(_) => 1,
    }
}

/// A bound on the ranks of `keys`.
pub open spec fn height(keys: Seq<DepKey>) -> nat
    decreases keys.len(),
{
    if keys.len() == 0 {
        0
    } else {
        let rest = height(keys.drop_first());
        if rank(keys[0]) < rest {
            rest
        } else {
            rank(keys[0]) + 1
        }
    }
}

/// How the log calls `key`.
pub open spec fn title(key: DepKey) -> Seq<char> {
    let name = match key {
        DepKey::SourceText(_) => "source_text("@,
        DepKey::TokenCount(_) => "token_count("@,
        DepKey::IsTrivial(_) => "is_trivial("@,
        DepKey::Weight(_) => "weight("@,
        DepKey::Lexed(_) => "lexed("@,
    };
    name + text::decimal(file_of(key).0 as nat) + ")"@
}

/// Computing `key` reads `other`, at first or second hand.
pub open spec fn reaches(key: DepKey, other: DepKey) -> bool
    decreases rank(key),
{
    exists|i: int|
        0 <= i < dependencies(key).len() && (#[trigger] dependencies(key)[i] == other || reaches(
            dependencies(key)[i],
            other,
        ))
}

/// A read of `dep` is attributed to the innermost frame, if there is one, and
/// only once.
pub open spec fn recorded(frames: Seq<Frame>, dep: DepKey) -> Seq<Frame> {
    if frames.len() == 0 || frames.last().deps.contains(dep) {
        frames
    } else {
        let frame = Frame { deps: frames.last().deps.push(dep), ..frames.last() };
        frames.drop_last().push(frame)
    }
}

/// Neither `key` nor anything it reads is being computed.
pub open spec fn acyclic(frames: Seq<Frame>, key: DepKey) -> bool {
    forall|i: int|
        0 <= i < frames.len() ==> match (#[trigger] frames[i]).key {
            Some(busy) => busy != key && !reaches(key, busy),
            None => true,
        }
}

impl Store {
    /// The store of a database that has never been written to.
    pub open spec fn fresh() -> Store {
        Store {
            revision: 0,
            inputs: Map::empty(),
            memos: Map::empty(),
            names: symbol::keywords(),
            log: Seq::empty(),
        }
    }

    /// The text of `file` is written, which starts a new revision.
    pub open spec fn write(self, file: FileId, text: Seq<char>) -> Store {
        let revision = self.revision + 1;
        Store {
            revision,
            inputs: self.inputs.insert(file, Input { text, changed_at: revision }),
            ..self
        }
    }

    /// `happening` is logged.
    pub open spec fn note(self, happening: Happening) -> Store {
        Store { log: self.log.push(happening), ..self }
    }

    /// `name` is interned.
    pub open spec fn intern(self, name: Seq<char>) -> Store {
        Store { names: symbol::interned(self.names, name), ..self }
    }

    /// When `dep` last changed, as far as is known.
    pub open spec fn changed_at(self, dep: DepKey) -> nat {
        match dep {
            DepKey::SourceText(file) => self.inputs[file].changed_at,
            _ => self.memos[dep].changed_at,
        }
    }

    /// What computing `key` gives, from the answers to what it reads.
    pub open spec fn computed(self, key: DepKey) -> Answer {
        match key {
            DepKey::SourceText(_) => arbitrary(),
            DepKey::TokenCount(file) => Answer::Count(text::words(self.inputs[file].text)),
            DepKey::IsTrivial(file) => {
                let count = self.memos[DepKey::TokenCount(file)].answer->Count_0;
                Answer::Flag(count < 3)
            },
            DepKey::Weight(file) => {
                let count = self.memos[DepKey::TokenCount(file)].answer->Count_0;
                let trivial = self.memos[DepKey::IsTrivial(file)].answer->Flag_0;
                Answer::Count(
                    if trivial {
                        0
                    } else {
                        count
                    },
                )
            },
            DepKey::Lexed(file) => {
                let cooked = token::lexing(self.inputs[file].text, self.names);
                Answer::Tokens { tokens: cooked.tokens, errors: cooked.errors }
            },
        }
    }

    /// The names known once `key` has been computed. Only lexing finds any.
    pub open spec fn names_after(self, key: DepKey) -> Seq<Seq<char>> {
        match key {
            DepKey::Lexed(file) => token::lexing(self.inputs[file].text, self.names).names,
            _ => self.names,
        }
    }

    /// The memo of `key` is confirmed for this revision.
    pub open spec fn confirm(self, key: DepKey) -> Store {
        let record = Record { verified_at: self.revision, ..self.memos[key] };
        Store { memos: self.memos.insert(key, record), ..self }
    }

    /// `key` is computed and its answer kept.
    ///
    /// Computing the same answer as before is not a change, so that the older
    /// revision stands and whatever depends on the answer is left alone.
    pub open spec fn remember(self, key: DepKey) -> Store {
        let answer = self.computed(key);
        let changed_at = if self.memos.contains_key(key) && self.memos[key].answer == answer {
            self.memos[key].changed_at
        } else {
            self.revision
        };
        let record = Record {
            answer,
            changed_at,
            verified_at: self.revision,
            deps: dependencies(key),
        };
        Store { memos: self.memos.insert(key, record), names: self.names_after(key), ..self }
    }
}

/// `key` is asked for. Its memo is used if it can be; otherwise the body runs.
pub open spec fn serve(store: Store, key: DepKey) -> Store
    decreases rank(key), 3nat, 0nat,
{
    proof {
        lemma_dependencies(key);
    }
    let (checked, usable) = check(store, key);
    if key is SourceText {
        store
    } else if usable {
        checked.confirm(key).note(Happening::Reused(title(key)))
    } else {
        let started = checked.note(Happening::Executed(title(key)));
        serve_all(started, dependencies(key)).remember(key)
    }
}

/// Says whether the memo of `key` can be used.
///
/// A memo already confirmed in this revision is accepted as it is. Any other
/// memo is accepted if nothing that it read has changed since it was confirmed.
pub open spec fn check(store: Store, key: DepKey) -> (Store, bool)
    decreases rank(key), 2nat, 0nat,
{
    proof {
        lemma_dependencies(key);
    }
    if !store.memos.contains_key(key) {
        (store, false)
    } else if store.memos[key].verified_at == store.revision {
        (store, true)
    } else {
        validate(store, dependencies(key), store.memos[key].verified_at)
    }
}

/// Each of `keys` is asked for, in order.
pub open spec fn serve_all(store: Store, keys: Seq<DepKey>) -> Store
    decreases height(keys), 1nat, keys.len(),
{
    if keys.len() == 0 {
        store
    } else {
        serve_all(serve(store, keys[0]), keys.drop_first())
    }
}

/// Each of `deps` is brought up to date, in order, until one turns out to have
/// changed after `since`. Says whether none did.
pub open spec fn validate(store: Store, deps: Seq<DepKey>, since: nat) -> (Store, bool)
    decreases height(deps), 1nat, deps.len(),
{
    if deps.len() == 0 {
        (store, true)
    } else {
        let next = serve(store, deps[0]);
        if next.changed_at(deps[0]) > since {
            (next, false)
        } else {
            validate(next, deps.drop_first(), since)
        }
    }
}

/// What the answer to `key` is, from the text alone. For lexing, the names known
/// beforehand matter too.
pub open spec fn right(key: DepKey, source: Seq<char>, names: Seq<Seq<char>>) -> Answer {
    let count = text::words(source);
    match key {
        DepKey::SourceText(_) => arbitrary(),
        DepKey::TokenCount(_) => Answer::Count(count),
        DepKey::IsTrivial(_) => Answer::Flag(count < 3),
        DepKey::Weight(_) => Answer::Count(
            if count < 3 {
                0
            } else {
                count
            },
        ),
        DepKey::Lexed(_) => Answer::Tokens {
            tokens: token::lexing(source, names).tokens,
            errors: token::lexing(source, names).errors,
        },
    }
}

/// `answer` is what computing `key` would give. For lexing this also says that
/// no name is left to be found.
pub open spec fn agrees(store: Store, key: DepKey, answer: Answer) -> bool {
    answer == store.computed(key) && store.names_after(key) == store.names
}

/// `dep` is known to be up to date.
pub open spec fn current(store: Store, dep: DepKey) -> bool {
    dep is SourceText || (store.memos.contains_key(dep) && store.memos[dep].verified_at
        == store.revision)
}

/// What holds of the memo of `key`.
///
/// What it read is no less up to date than it is itself. And if none of that has
/// changed since it was confirmed, then its answer is what computing it again
/// would give.
pub open spec fn sound(store: Store, key: DepKey) -> bool {
    let record = store.memos[key];
    &&& key !is SourceText
    &&& record.deps == dependencies(key)
    &&& store.inputs.contains_key(file_of(key))
    &&& record.changed_at <= record.verified_at <= store.revision
    &&& forall|i: int|
        0 <= i < dependencies(key).len() ==> {
            let dep = #[trigger] dependencies(key)[i];
            dep is SourceText || (store.memos.contains_key(dep) && record.verified_at
                <= store.memos[dep].verified_at)
        }
    &&& (forall|i: int|
        0 <= i < dependencies(key).len() ==> store.changed_at(#[trigger] dependencies(key)[i])
            <= record.verified_at) ==> agrees(store, key, record.answer)
}

/// What every operation keeps of the store.
pub open spec fn coherent(store: Store) -> bool {
    &&& symbol::valid_names(store.names)
    &&& forall|file: FileId| #[trigger]
        store.inputs.contains_key(file) ==> store.inputs[file].changed_at <= store.revision
    &&& forall|key: DepKey| #[trigger] store.memos.contains_key(key) ==> sound(store, key)
}

/// `later` comes of `store` without any input being written. No memo is lost or
/// becomes less certain, and one that is up to date stays as it is.
pub open spec fn follows(store: Store, later: Store) -> bool {
    &&& later.revision == store.revision
    &&& later.inputs == store.inputs
    &&& store.names.is_prefix_of(later.names)
    &&& store.log.is_prefix_of(later.log)
    &&& forall|key: DepKey| #[trigger]
        store.memos.contains_key(key) ==> {
            &&& later.memos.contains_key(key)
            &&& store.memos[key].verified_at <= later.memos[key].verified_at
            &&& store.memos[key].verified_at == store.revision ==> later.memos[key]
                == store.memos[key]
        }
}

/// What a query reads is about the same file, and closer to the inputs.
pub proof fn lemma_dependencies(key: DepKey)
    ensures
        height(dependencies(key)) <= rank(key),
        forall|i: int|
            0 <= i < dependencies(key).len() ==> rank(#[trigger] dependencies(key)[i]) < rank(key)
                && file_of(dependencies(key)[i]) == file_of(key),
{
    reveal_with_fuel(height, 3);
}

/// A rank is below the height of any sequence it occurs in.
pub proof fn lemma_height(keys: Seq<DepKey>, i: int)
    requires
        0 <= i < keys.len(),
    ensures
        rank(keys[i]) < height(keys),
    decreases keys.len(),
{
    if i > 0 {
        assert(keys.drop_first()[i - 1] == keys[i]);
        lemma_height(keys.drop_first(), i - 1);
    }
}

/// Recording a read does not change what is being computed.
pub proof fn lemma_acyclic_recorded(frames: Seq<Frame>, dep: DepKey, key: DepKey)
    requires
        acyclic(frames, key),
    ensures
        acyclic(recorded(frames, dep), key),
{
    let after = recorded(frames, dep);
    assert forall|i: int| 0 <= i < after.len() implies match (#[trigger] after[i]).key {
        Some(busy) => busy != key && !reaches(key, busy),
        None => true,
    } by {
        assert(after[i].key == frames[i].key);
    }
}

/// A frame for no query in particular stands in nobody's way.
pub proof fn lemma_acyclic_checking(frames: Seq<Frame>, outer: Seq<Frame>, key: DepKey)
    requires
        frames.len() > 0,
        frames.drop_last() == outer,
        frames.last().key is None,
        acyclic(outer, key),
    ensures
        acyclic(frames, key),
{
    assert forall|i: int| 0 <= i < frames.len() implies match (#[trigger] frames[i]).key {
        Some(busy) => busy != key && !reaches(key, busy),
        None => true,
    } by {
        if i < frames.len() - 1 {
            assert(frames[i] == outer[i]);
        }
    }
}

/// Where a query can be computed, so can what it reads, before and during the
/// computation.
pub proof fn lemma_acyclic_down(frames: Seq<Frame>, key: DepKey)
    requires
        acyclic(frames, key),
    ensures
        forall|i: int|
            0 <= i < dependencies(key).len() ==> {
                let dep = #[trigger] dependencies(key)[i];
                let frame = Frame { key: Some(key), deps: Seq::empty() };
                acyclic(frames, dep) && acyclic(frames.push(frame), dep)
            },
{
    lemma_dependencies(key);
    let inner = frames.push(Frame { key: Some(key), deps: Seq::empty() });
    assert forall|i: int| 0 <= i < dependencies(key).len() implies acyclic(
        frames,
        #[trigger] dependencies(key)[i],
    ) && acyclic(inner, dependencies(key)[i]) by {
        let dep = dependencies(key)[i];
        if reaches(dep, key) {
            lemma_reaches_down(dep, key);
        }
        assert forall|j: int| 0 <= j < inner.len() implies match (#[trigger] inner[j]).key {
            Some(busy) => busy != dep && !reaches(dep, busy),
            None => true,
        } by {
            if j < frames.len() {
                assert(inner[j] == frames[j]);
            }
        }
        assert forall|j: int| 0 <= j < frames.len() implies match (#[trigger] frames[j]).key {
            Some(busy) => busy != dep && !reaches(dep, busy),
            None => true,
        } by {
            assert(inner[j] == frames[j]);
        }
    }
}

/// Following is transitive.
pub proof fn lemma_follows(a: Store, b: Store, c: Store)
    requires
        follows(a, b),
        follows(b, c),
    ensures
        follows(a, c),
{
}

/// Writing an input keeps the store coherent.
pub proof fn lemma_write(store: Store, file: FileId, text: Seq<char>)
    requires
        coherent(store),
    ensures
        coherent(store.write(file, text)),
{
    let later = store.write(file, text);
    assert forall|key: DepKey| #[trigger] later.memos.contains_key(key) implies sound(
        later,
        key,
    ) by {
        assert(sound(store, key));
        lemma_dependencies(key);
        let record = store.memos[key];
        if forall|i: int|
            0 <= i < dependencies(key).len() ==> later.changed_at(#[trigger] dependencies(key)[i])
                <= record.verified_at {
            assert forall|i: int| 0 <= i < dependencies(key).len() implies ({
                let dep = #[trigger] dependencies(key)[i];
                store.changed_at(dep) == later.changed_at(dep)
            }) by {
                let dep = dependencies(key)[i];
                assert(later.changed_at(dep) <= record.verified_at);
            }
            assert(dependencies(key).len() > 0);
            let dep = dependencies(key)[0];
            assert(later.changed_at(dep) <= record.verified_at);
            assert(later.computed(key) == store.computed(key));
            assert(later.names_after(key) == store.names_after(key));
        }
    }
}

/// A memo that is up to date holds what computing it again would give.
pub proof fn lemma_current_agrees(store: Store, key: DepKey)
    requires
        coherent(store),
        store.memos.contains_key(key),
        current(store, key),
    ensures
        agrees(store, key, store.memos[key].answer),
        forall|i: int|
            0 <= i < dependencies(key).len() ==> current(store, #[trigger] dependencies(key)[i]),
{
    assert(sound(store, key));
    assert forall|i: int| 0 <= i < dependencies(key).len() implies store.changed_at(
        #[trigger] dependencies(key)[i],
    ) <= store.memos[key].verified_at && current(store, dependencies(key)[i]) by {
        let dep = dependencies(key)[i];
        lemma_dependencies(key);
        if dep !is SourceText {
            assert(sound(store, dep));
        }
    }
}

/// A memo that is up to date holds the right answer.
pub proof fn lemma_current_is_right(store: Store, key: DepKey)
    requires
        coherent(store),
        store.memos.contains_key(key),
        current(store, key),
    ensures
        store.memos[key].answer == right(key, store.inputs[file_of(key)].text, store.names),
        store.names_after(key) == store.names,
    decreases rank(key),
{
    assert(sound(store, key));
    lemma_current_agrees(store, key);
    match key {
        DepKey::IsTrivial(file) => {
            assert(dependencies(key)[0] == DepKey::TokenCount(file));
            lemma_current_is_right(store, DepKey::TokenCount(file));
        },
        DepKey::Weight(file) => {
            assert(dependencies(key)[0] == DepKey::TokenCount(file));
            assert(dependencies(key)[1] == DepKey::IsTrivial(file));
            lemma_current_is_right(store, DepKey::TokenCount(file));
            lemma_current_is_right(store, DepKey::IsTrivial(file));
        },
        _ => {},
    }
}

/// Confirming a memo none of whose dependencies have changed keeps the store
/// coherent.
pub proof fn lemma_confirm(store: Store, key: DepKey)
    requires
        coherent(store),
        store.memos.contains_key(key),
        forall|i: int|
            0 <= i < dependencies(key).len() ==> {
                let dep = #[trigger] dependencies(key)[i];
                current(store, dep) && store.changed_at(dep) <= store.memos[key].verified_at
            },
    ensures
        coherent(store.confirm(key)),
        follows(store, store.confirm(key)),
        current(store.confirm(key), key),
{
    let later = store.confirm(key);
    assert(sound(store, key));
    lemma_dependencies(key);
    assert forall|other: DepKey| #[trigger] later.memos.contains_key(other) implies sound(
        later,
        other,
    ) by {
        assert(sound(store, other));
        lemma_dependencies(other);
        assert forall|i: int| 0 <= i < dependencies(other).len() implies later.changed_at(
            #[trigger] dependencies(other)[i],
        ) == store.changed_at(dependencies(other)[i]) by {}
        assert(later.computed(other) == store.computed(other));
        assert(later.names_after(other) == store.names_after(other));
    }
}

/// Keeping a freshly computed answer keeps the store coherent.
pub proof fn lemma_remember(store: Store, key: DepKey)
    requires
        coherent(store),
        key !is SourceText,
        store.inputs.contains_key(file_of(key)),
        store.memos.contains_key(key) ==> store.memos[key].verified_at < store.revision,
        forall|i: int|
            0 <= i < dependencies(key).len() ==> current(store, #[trigger] dependencies(key)[i]),
    ensures
        coherent(store.remember(key)),
        follows(store, store.remember(key)),
        current(store.remember(key), key),
{
    let later = store.remember(key);
    lemma_dependencies(key);
    if let DepKey::Lexed(file) = key {
        let source = store.inputs[file].text;
        token::laws::lemma_cook_grows(crate::lexer::lexemes(source), 0, store.names);
        token::laws::lemma_relexing_changes_nothing(source, store.names, later.names);
    }
    assert forall|other: DepKey| #[trigger] later.memos.contains_key(other) implies sound(
        later,
        other,
    ) by {
        lemma_dependencies(other);
        if other == key {
            if store.memos.contains_key(key) {
                assert(sound(store, key));
            }
            assert(later.computed(key) == store.computed(key));
        } else {
            assert(sound(store, other));
            lemma_remember_keeps(store, key, other);
        }
    }
}

/// Keeping a freshly computed answer leaves the other memos sound.
proof fn lemma_remember_keeps(store: Store, key: DepKey, other: DepKey)
    requires
        coherent(store),
        key !is SourceText,
        store.inputs.contains_key(file_of(key)),
        store.memos.contains_key(key) ==> store.memos[key].verified_at < store.revision,
        symbol::valid_names(store.remember(key).names),
        store.names.is_prefix_of(store.remember(key).names),
        other != key,
        store.memos.contains_key(other),
    ensures
        sound(store.remember(key), other),
{
    let later = store.remember(key);
    let record = store.memos[other];
    assert(sound(store, other));
    lemma_dependencies(other);
    if forall|i: int|
        0 <= i < dependencies(other).len() ==> later.changed_at(#[trigger] dependencies(other)[i])
            <= record.verified_at {
        assert forall|i: int| 0 <= i < dependencies(other).len() implies ({
            let dep = #[trigger] dependencies(other)[i];
            &&& store.changed_at(dep) <= record.verified_at
            &&& dep !is SourceText ==> later.memos[dep].answer == store.memos[dep].answer
        }) by {
            let dep = dependencies(other)[i];
            assert(later.changed_at(dep) <= record.verified_at);
        }
        assert(later.computed(other) == store.computed(other)) by {
            if let DepKey::Lexed(file) = other {
                token::laws::lemma_relexing_changes_nothing(
                    store.inputs[file].text,
                    store.names,
                    later.names,
                );
            }
            if let DepKey::IsTrivial(file) = other {
                assert(dependencies(other)[0] == DepKey::TokenCount(file));
            }
            if let DepKey::Weight(file) = other {
                assert(dependencies(other)[0] == DepKey::TokenCount(file));
                assert(dependencies(other)[1] == DepKey::IsTrivial(file));
            }
        }
        assert(later.names_after(other) == later.names) by {
            if let DepKey::Lexed(file) = other {
                token::laws::lemma_relexing_changes_nothing(
                    store.inputs[file].text,
                    store.names,
                    later.names,
                );
            }
        }
    }
}

/// Logging keeps the store coherent.
pub proof fn lemma_note(store: Store, happening: Happening)
    requires
        coherent(store),
    ensures
        coherent(store.note(happening)),
        follows(store, store.note(happening)),
{
    let later = store.note(happening);
    assert forall|key: DepKey| #[trigger] later.memos.contains_key(key) implies sound(
        later,
        key,
    ) by {
        assert(sound(store, key));
        assert forall|i: int| 0 <= i < dependencies(key).len() implies later.changed_at(
            #[trigger] dependencies(key)[i],
        ) == store.changed_at(dependencies(key)[i]) by {}
        assert(later.computed(key) == store.computed(key));
    }
}

/// A query reads only what is closer to the inputs than itself, so that it never
/// reads itself.
pub proof fn lemma_reaches_down(key: DepKey, other: DepKey)
    requires
        reaches(key, other),
    ensures
        rank(other) < rank(key),
        file_of(other) == file_of(key),
    decreases rank(key),
{
    lemma_dependencies(key);
    let i = choose|i: int|
        0 <= i < dependencies(key).len() && (#[trigger] dependencies(key)[i] == other || reaches(
            dependencies(key)[i],
            other,
        ));
    if dependencies(key)[i] != other {
        lemma_reaches_down(dependencies(key)[i], other);
    }
}

/// What is not reached from a query is not reached from what it reads.
pub proof fn lemma_not_reached(key: DepKey, other: DepKey)
    requires
        !reaches(key, other),
    ensures
        forall|i: int|
            0 <= i < dependencies(key).len() ==> #[trigger] dependencies(key)[i] != other
                && !reaches(dependencies(key)[i], other),
{
}

/// The memo of `key` is the same in both, or missing from both.
pub open spec fn untouched(store: Store, later: Store, key: DepKey) -> bool {
    &&& later.memos.contains_key(key) <==> store.memos.contains_key(key)
    &&& later.memos.contains_key(key) ==> later.memos[key] == store.memos[key]
}

/// Serving a query touches no memo but its own and those of what it reads.
pub proof fn lemma_serve_touches(store: Store, key: DepKey, other: DepKey)
    requires
        other != key,
        !reaches(key, other),
    ensures
        untouched(store, serve(store, key), other),
    decreases rank(key), 3nat, 0nat,
{
    lemma_dependencies(key);
    lemma_not_reached(key, other);
    let checked = check(store, key).0;
    lemma_check_touches(store, key, other);
    lemma_serve_all_touches(
        checked.note(Happening::Executed(title(key))),
        dependencies(key),
        other,
    );
}

/// Checking a memo touches no memo but those of what was read for it.
pub proof fn lemma_check_touches(store: Store, key: DepKey, other: DepKey)
    requires
        !reaches(key, other),
    ensures
        untouched(store, check(store, key).0, other),
    decreases rank(key), 2nat, 0nat,
{
    lemma_dependencies(key);
    lemma_not_reached(key, other);
    lemma_validate_touches(store, dependencies(key), store.memos[key].verified_at, other);
}

/// Serving queries touches no memo but theirs and those of what they read.
pub proof fn lemma_serve_all_touches(store: Store, keys: Seq<DepKey>, other: DepKey)
    requires
        forall|i: int|
            0 <= i < keys.len() ==> #[trigger] keys[i] != other && !reaches(keys[i], other),
    ensures
        untouched(store, serve_all(store, keys), other),
    decreases height(keys), 1nat, keys.len(),
{
    if keys.len() > 0 {
        assert(keys[0] != other);
        lemma_serve_touches(store, keys[0], other);
        let rest = keys.drop_first();
        assert forall|i: int| 0 <= i < rest.len() implies #[trigger] rest[i] != other && !reaches(
            rest[i],
            other,
        ) by {
            assert(rest[i] == keys[i + 1]);
        }
        lemma_serve_all_touches(serve(store, keys[0]), keys.drop_first(), other);
    }
}

/// Validating touches no memo but those of the dependencies and of what they
/// read.
pub proof fn lemma_validate_touches(
    store: Store,
    deps: Seq<DepKey>,
    since: nat,
    other: DepKey,
)
    requires
        forall|i: int|
            0 <= i < deps.len() ==> #[trigger] deps[i] != other && !reaches(deps[i], other),
    ensures
        untouched(store, validate(store, deps, since).0, other),
    decreases height(deps), 1nat, deps.len(),
{
    if deps.len() > 0 {
        assert(deps[0] != other);
        lemma_serve_touches(store, deps[0], other);
        let rest = deps.drop_first();
        assert forall|i: int| 0 <= i < rest.len() implies #[trigger] rest[i] != other && !reaches(
            rest[i],
            other,
        ) by {
            assert(rest[i] == deps[i + 1]);
        }
        lemma_validate_touches(serve(store, deps[0]), deps.drop_first(), since, other);
    }
}

/// Serving a query keeps the store coherent, and leaves the query up to date.
pub proof fn lemma_serve(store: Store, key: DepKey)
    requires
        coherent(store),
        store.inputs.contains_key(file_of(key)),
    ensures
        coherent(serve(store, key)),
        follows(store, serve(store, key)),
        current(serve(store, key), key),
    decreases rank(key), 3nat, 0nat,
{
    lemma_dependencies(key);
    if key !is SourceText {
        let (checked, usable) = check(store, key);
        lemma_check(store, key);
        if usable {
            lemma_confirm(checked, key);
            lemma_note(checked.confirm(key), Happening::Reused(title(key)));
        } else {
            lemma_execute(checked, key);
        }
    }
}

/// Checking a memo keeps the store coherent and the memo as it is. If it can be
/// used, what it read is up to date and has not changed since it was confirmed.
/// If it cannot, it is not up to date.
pub proof fn lemma_check(store: Store, key: DepKey)
    requires
        coherent(store),
        key !is SourceText,
        store.inputs.contains_key(file_of(key)),
    ensures
        ({
            let (checked, usable) = check(store, key);
            &&& coherent(checked)
            &&& follows(store, checked)
            &&& untouched(store, checked, key)
            &&& usable ==> store.memos.contains_key(key) && forall|i: int|
                0 <= i < dependencies(key).len() ==> {
                    let dep = #[trigger] dependencies(key)[i];
                    current(checked, dep) && checked.changed_at(dep)
                        <= checked.memos[key].verified_at
                }
            &&& !usable && store.memos.contains_key(key) ==> checked.memos[key].verified_at
                < checked.revision
        }),
    decreases rank(key), 2nat, 0nat,
{
    lemma_dependencies(key);
    let deps = dependencies(key);
    if store.memos.contains_key(key) {
        let since = store.memos[key].verified_at;
        assert(sound(store, key));
        if since == store.revision {
            lemma_current_agrees(store, key);
            assert forall|i: int| 0 <= i < deps.len() implies ({
                let dep = #[trigger] deps[i];
                current(store, dep) && store.changed_at(dep) <= since
            }) by {
                if deps[i] !is SourceText {
                    assert(sound(store, deps[i]));
                }
            }
        } else {
            if reaches(key, key) {
                lemma_reaches_down(key, key);
            }
            lemma_check_touches(store, key, key);
            lemma_validate(store, deps, since);
        }
    }
}

/// Running the body of a query keeps the store coherent, and leaves the query up
/// to date.
proof fn lemma_execute(store: Store, key: DepKey)
    requires
        coherent(store),
        key !is SourceText,
        store.inputs.contains_key(file_of(key)),
        store.memos.contains_key(key) ==> store.memos[key].verified_at < store.revision,
    ensures
        ({
            let started = store.note(Happening::Executed(title(key)));
            let later = serve_all(started, dependencies(key)).remember(key);
            coherent(later) && follows(store, later) && current(later, key)
        }),
    decreases rank(key), 1nat, 3nat,
{
    let started = store.note(Happening::Executed(title(key)));
    let deps = dependencies(key);
    lemma_dependencies(key);
    lemma_note(store, Happening::Executed(title(key)));
    lemma_serve_all(started, deps);
    assert forall|i: int| 0 <= i < deps.len() implies #[trigger] deps[i] != key && !reaches(
        deps[i],
        key,
    ) by {
        if reaches(deps[i], key) {
            lemma_reaches_down(deps[i], key);
        }
    }
    lemma_serve_all_touches(started, deps, key);
    lemma_remember(serve_all(started, deps), key);
}

/// Serving queries keeps the store coherent, and leaves them up to date.
pub proof fn lemma_serve_all(store: Store, keys: Seq<DepKey>)
    requires
        coherent(store),
        forall|i: int|
            0 <= i < keys.len() ==> store.inputs.contains_key(file_of(#[trigger] keys[i])),
    ensures
        coherent(serve_all(store, keys)),
        follows(store, serve_all(store, keys)),
        forall|i: int|
            0 <= i < keys.len() ==> current(serve_all(store, keys), #[trigger] keys[i]),
    decreases height(keys), 1nat, keys.len(),
{
    if keys.len() > 0 {
        let next = serve(store, keys[0]);
        let rest = keys.drop_first();
        assert(store.inputs.contains_key(file_of(keys[0])));
        lemma_serve(store, keys[0]);
        assert forall|i: int| 0 <= i < rest.len() implies next.inputs.contains_key(
            file_of(#[trigger] rest[i]),
        ) by {
            assert(rest[i] == keys[i + 1]);
        }
        lemma_serve_all(next, rest);
        assert forall|i: int| 0 <= i < keys.len() implies current(
            serve_all(store, keys),
            #[trigger] keys[i],
        ) by {
            if i > 0 {
                assert(keys[i] == rest[i - 1]);
            }
        }
    }
}

/// Validating keeps the store coherent. If it succeeds, the dependencies are up
/// to date, and none of them has changed since.
pub proof fn lemma_validate(store: Store, deps: Seq<DepKey>, since: nat)
    requires
        coherent(store),
        forall|i: int|
            0 <= i < deps.len() ==> store.inputs.contains_key(file_of(#[trigger] deps[i])),
    ensures
        coherent(validate(store, deps, since).0),
        follows(store, validate(store, deps, since).0),
        validate(store, deps, since).1 ==> forall|i: int|
            0 <= i < deps.len() ==> {
                let dep = #[trigger] deps[i];
                let later = validate(store, deps, since).0;
                current(later, dep) && later.changed_at(dep) <= since
            },
    decreases height(deps), 1nat, deps.len(),
{
    if deps.len() > 0 {
        let next = serve(store, deps[0]);
        let rest = deps.drop_first();
        assert(store.inputs.contains_key(file_of(deps[0])));
        lemma_serve(store, deps[0]);
        assert forall|i: int| 0 <= i < rest.len() implies next.inputs.contains_key(
            file_of(#[trigger] rest[i]),
        ) by {
            assert(rest[i] == deps[i + 1]);
        }
        lemma_validate(next, rest, since);
        let (later, unchanged) = validate(store, deps, since);
        if unchanged {
            assert forall|i: int| 0 <= i < deps.len() implies ({
                let dep = #[trigger] deps[i];
                current(later, dep) && later.changed_at(dep) <= since
            }) by {
                if i > 0 {
                    assert(deps[i] == rest[i - 1]);
                }
            }
        }
    }
}

/// Serving what a query reads amounts to serving each in turn.
pub proof fn lemma_serve_dependencies(store: Store, key: DepKey)
    ensures
        serve_all(store, dependencies(key)) == match key {
            DepKey::SourceText(_) => store,
            DepKey::TokenCount(file) => store,
            DepKey::IsTrivial(file) => serve(store, DepKey::TokenCount(file)),
            DepKey::Weight(file) => serve(
                serve(store, DepKey::TokenCount(file)),
                DepKey::IsTrivial(file),
            ),
            DepKey::Lexed(file) => store,
        },
{
    reveal_with_fuel(serve_all, 3);
}

/// A query that reads nothing but the text is validated by looking at when the
/// text was written.
pub proof fn lemma_validate_input(store: Store, key: DepKey)
    requires
        key is TokenCount || key is Lexed,
    ensures
        forall|since: nat| #[trigger]
            validate(store, dependencies(key), since) == (
                store,
                store.inputs[file_of(key)].changed_at <= since,
            ),
{
    let deps = dependencies(key);
    assert(deps[0] == DepKey::SourceText(file_of(key)));
    assert(serve(store, deps[0]) == store);
    assert forall|since: nat| #[trigger]
        validate(store, deps, since) == (store, store.inputs[file_of(key)].changed_at
            <= since) by {
        assert(validate(store, deps.drop_first(), since) == (store, true));
    }
}

/// The reads that are recorded while a query is computed are its dependencies.
pub proof fn lemma_recorded_dependencies(frames: Seq<Frame>, key: DepKey)
    ensures
        ({
            let start = frames.push(Frame { key: Some(key), deps: Seq::empty() });
            let end = frames.push(Frame { key: Some(key), deps: dependencies(key) });
            match key {
                DepKey::SourceText(_) => start == end,
                DepKey::TokenCount(file) => recorded(start, DepKey::SourceText(file)) == end,
                DepKey::IsTrivial(file) => recorded(start, DepKey::TokenCount(file)) == end,
                DepKey::Weight(file) => recorded(
                    recorded(start, DepKey::TokenCount(file)),
                    DepKey::IsTrivial(file),
                ) == end,
                DepKey::Lexed(file) => recorded(start, DepKey::SourceText(file)) == end,
            }
        }),
{
    let start = frames.push(Frame { key: Some(key), deps: Seq::empty() });
    let end = frames.push(Frame { key: Some(key), deps: dependencies(key) });
    assert(start.drop_last() =~= frames);
    match key {
        DepKey::SourceText(_) => {
            assert(dependencies(key) =~= Seq::empty());
        },
        DepKey::TokenCount(file) | DepKey::Lexed(file) => {
            assert(Seq::empty().push(DepKey::SourceText(file)) =~= dependencies(key));
        },
        DepKey::IsTrivial(file) => {
            assert(Seq::empty().push(DepKey::TokenCount(file)) =~= dependencies(key));
        },
        DepKey::Weight(file) => {
            let middle = recorded(start, DepKey::TokenCount(file));
            assert(middle.drop_last() =~= frames);
            assert(middle.last().deps =~= seq![DepKey::TokenCount(file)]);
            assert(!middle.last().deps.contains(DepKey::IsTrivial(file)));
            assert(middle.last().deps.push(DepKey::IsTrivial(file)) =~= dependencies(key));
        },
    }
}

/// Only lexing finds names.
pub proof fn lemma_serve_names(store: Store, key: DepKey)
    requires
        key !is Lexed,
    ensures
        serve(store, key).names == store.names,
    decreases rank(key), 3nat, 0nat,
{
    lemma_dependencies(key);
    let deps = dependencies(key);
    let checked = check(store, key).0;
    lemma_validate_names(store, deps, store.memos[key].verified_at);
    lemma_serve_all_names(checked.note(Happening::Executed(title(key))), deps);
}

/// Serving queries other than lexing finds no names.
pub proof fn lemma_serve_all_names(store: Store, keys: Seq<DepKey>)
    requires
        forall|i: int| 0 <= i < keys.len() ==> #[trigger] keys[i] !is Lexed,
    ensures
        serve_all(store, keys).names == store.names,
    decreases height(keys), 1nat, keys.len(),
{
    if keys.len() > 0 {
        assert(keys[0] !is Lexed);
        lemma_serve_names(store, keys[0]);
        let rest = keys.drop_first();
        assert forall|i: int| 0 <= i < rest.len() implies #[trigger] rest[i] !is Lexed by {
            assert(rest[i] == keys[i + 1]);
        }
        lemma_serve_all_names(serve(store, keys[0]), keys.drop_first());
    }
}

/// Validating against queries other than lexing finds no names.
proof fn lemma_validate_names(store: Store, deps: Seq<DepKey>, since: nat)
    requires
        forall|i: int| 0 <= i < deps.len() ==> #[trigger] deps[i] !is Lexed,
    ensures
        validate(store, deps, since).0.names == store.names,
    decreases height(deps), 1nat, deps.len(),
{
    if deps.len() > 0 {
        assert(deps[0] !is Lexed);
        lemma_serve_names(store, deps[0]);
        let rest = deps.drop_first();
        assert forall|i: int| 0 <= i < rest.len() implies #[trigger] rest[i] !is Lexed by {
            assert(rest[i] == deps[i + 1]);
        }
        lemma_validate_names(serve(store, deps[0]), deps.drop_first(), since);
    }
}

/// A query that has been served has the right answer, however it was served.
pub proof fn lemma_serve_answers(store: Store, key: DepKey)
    requires
        coherent(store),
        key !is SourceText,
        store.inputs.contains_key(file_of(key)),
    ensures
        serve(store, key).memos.contains_key(key),
        serve(store, key).memos[key].answer == right(
            key,
            store.inputs[file_of(key)].text,
            store.names,
        ),
        serve(store, key).names == store.names_after(key),
{
    lemma_serve(store, key);
    lemma_current_is_right(serve(store, key), key);
    if let DepKey::Lexed(file) = key {
        lemma_validate_input(store, key);
        assert(check(store, key).0 == store);
        lemma_serve_dependencies(store.note(Happening::Executed(title(key))), key);
    } else {
        lemma_serve_names(store, key);
    }
}

/// Interning keeps the store coherent.
pub proof fn lemma_intern(store: Store, name: Seq<char>)
    requires
        coherent(store),
    ensures
        coherent(store.intern(name)),
        follows(store, store.intern(name)),
{
    let later = store.intern(name);
    symbol::lemma_interned_grows(store.names, name);
    symbol::lemma_interned_valid(store.names, name);
    assert forall|key: DepKey| #[trigger] later.memos.contains_key(key) implies sound(
        later,
        key,
    ) by {
        assert(sound(store, key));
        assert forall|i: int| 0 <= i < dependencies(key).len() implies later.changed_at(
            #[trigger] dependencies(key)[i],
        ) == store.changed_at(dependencies(key)[i]) by {}
        if agrees(store, key, store.memos[key].answer) {
            if let DepKey::Lexed(file) = key {
                token::laws::lemma_relexing_changes_nothing(
                    store.inputs[file].text,
                    store.names,
                    later.names,
                );
            }
            assert(agrees(later, key, store.memos[key].answer));
        }
    }
}

/// Forgetting the log keeps the store coherent.
pub proof fn lemma_forget(store: Store)
    requires
        coherent(store),
    ensures
        coherent(Store { log: Seq::empty(), ..store }),
{
    let later = Store { log: Seq::empty(), ..store };
    assert forall|key: DepKey| #[trigger] later.memos.contains_key(key) implies sound(
        later,
        key,
    ) by {
        assert(sound(store, key));
        assert forall|i: int| 0 <= i < dependencies(key).len() implies later.changed_at(
            #[trigger] dependencies(key)[i],
        ) == store.changed_at(dependencies(key)[i]) by {}
        assert(later.computed(key) == store.computed(key));
    }
}

} // verus!
