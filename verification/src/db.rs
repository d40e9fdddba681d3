//! A minimal demand-driven query system.
//!
//! Compilation is not a pipeline of passes but a set of pure functions
//! ("queries") whose results are memoized. Instead of running passes in order,
//! the compiler asks for the value it needs and the system computes only what is
//! required to produce it.
//!
//! Incrementality is invisible from the values alone, so the database keeps an
//! [`Event`] log recording whether each query was executed or served from the
//! memo table.
//!
//! # Dependency tracking
//!
//! Every read is funnelled through an accessor that records a [`DepKey`] into
//! the frame of the query currently executing. Those keys are stored alongside
//! the memoized value. Reads may not bypass the accessors: touching a field
//! directly silently drops an edge from the dependency graph and produces stale
//! results. That each memo holds exactly the edges of [`query::dependencies`]
//! is part of [`query::coherent`].
//!
//! # Validation
//!
//! A memo carries two revisions. `changed_at` is when its value last differed;
//! `verified_at` is when it was last confirmed current. Confirming a memo means
//! bringing each of its dependencies up to date - which may execute them - and
//! checking that none reports a change newer than `verified_at`. A memo already
//! verified in this revision is accepted without walking its dependencies at
//! all, which is what keeps diamond-shaped graphs from being traversed
//! exponentially.
//!
//! # The interner is not part of the query graph
//!
//! Names interned while lexing land in the database's interner. Interning
//! attaches no dependency to whichever query is running: a name keeps its symbol
//! whatever is interned after it, so that no memo can be disturbed by it.
//!
//! # Current limitations
//!
//! - Backdating compares values with `==`, so it only helps for cheaply
//!   comparable results. Large trees will want a fingerprint instead.
//! - Every query needs its own memo table and match arm by hand.
use crate::query;
use crate::query::{Answer, Frame, Happening, Input, Record, Store};
use crate::symbol;
use crate::symbol::{Interner, Symbol};
use crate::text;
use crate::token;
use crate::token::{lex, Lexed};
use std::collections::HashMap;
use vstd::prelude::*;
use vstd::string::*;

verus! {

broadcast use vstd::std_specs::hash::group_hash_axioms;

/// A monotonically increasing logical clock, bumped on every write to an input.
///
/// All invalidation decisions reduce to comparing two revisions: when a memo
/// was last verified, versus when its dependencies last changed.
#[derive(Copy, Clone, PartialEq, Eq, Structural, PartialOrd, Ord, Debug)]
pub struct Revision(u64);

impl Revision {
    /// The revision as a number.
    pub closed spec fn number(self) -> nat {
        self.0 as nat
    }

    /// The revision of a database that has never been written to.
    pub fn start() -> (revision: Revision)
        ensures
            revision.number() == 0,
    {
        Revision(0)
    }

    fn next(self) -> (next: Revision)
        requires
            self.number() < u64::MAX,
        ensures
            next.number() == self.number() + 1,
    {
        Revision(self.0 + 1)
    }
}

/// Identifies a source file.
///
/// Deliberately an opaque index rather than a path or a reference: query keys
/// must be cheap to hash and stable across revisions.
#[derive(Copy, Clone, PartialEq, Eq, Structural, Hash, Debug)]
pub struct FileId(pub u32);

/// Identifies something a query is allowed to read: an input or another query.
#[derive(Copy, Clone, PartialEq, Eq, Structural, Hash, Debug)]
pub enum DepKey {
    SourceText(FileId),
    TokenCount(FileId),
    IsTrivial(FileId),
    Weight(FileId),
    Lexed(FileId),
}

impl DepKey {
    /// How the log calls the key.
    pub fn title(self) -> (title: String)
        ensures
            title@ == query::title(self),
            title@ == match self {
                DepKey::SourceText(file) => "source_text("@ + text::decimal(file.0 as nat) + ")"@,
                DepKey::TokenCount(file) => "token_count("@ + text::decimal(file.0 as nat) + ")"@,
                DepKey::IsTrivial(file) => "is_trivial("@ + text::decimal(file.0 as nat) + ")"@,
                DepKey::Weight(file) => "weight("@ + text::decimal(file.0 as nat) + ")"@,
                DepKey::Lexed(file) => "lexed("@ + text::decimal(file.0 as nat) + ")"@,
            },
    {
        let (name, file) = match self {
            DepKey::SourceText(file) => ("source_text(", file),
            DepKey::TokenCount(file) => ("token_count(", file),
            DepKey::IsTrivial(file) => ("is_trivial(", file),
            DepKey::Weight(file) => ("weight(", file),
            DepKey::Lexed(file) => ("lexed(", file),
        };
        let mut title = name.to_string();
        title.append(text::to_decimal(file.0).as_str());
        title.append(")");
        title
    }
}

/// A record of how a query call was serviced.
///
/// Emitted so that "returned the right answer" can be told apart from "returned
/// the right answer without recomputing it". The latter is the whole point of
/// the query system and is otherwise invisible.
#[derive(PartialEq, Eq, Debug)]
pub enum Event {
    /// The query body ran.
    Executed(String),
    /// A memoized value was returned.
    Reused(String),
}

impl Event {
    /// What the event says.
    pub open spec fn happening(self) -> Happening {
        match self {
            Event::Executed(title) => Happening::Executed(title@),
            Event::Reused(title) => Happening::Reused(title@),
        }
    }
}

impl Clone for Event {
    fn clone(&self) -> (copy: Event)
        ensures
            copy.happening() == self.happening(),
            match *self {
                Event::Executed(title) => copy is Executed && copy->Executed_0@ == title@,
                Event::Reused(title) => copy is Reused && copy->Reused_0@ == title@,
            },
    {
        match self {
            Event::Executed(title) => Event::Executed(title.clone()),
            Event::Reused(title) => Event::Reused(title.clone()),
        }
    }
}

/// What the events say, in order.
pub open spec fn happenings(events: Seq<Event>) -> Seq<Happening> {
    Seq::new(events.len(), |i: int| events[i].happening())
}

/// A memoized query result, the revisions bounding its validity, and everything
/// it read while being computed.
struct Memo<V> {
    value: V,
    changed_at: Revision,
    verified_at: Revision,
    deps: Vec<DepKey>,
}

impl<V> Memo<V> {
    /// The memo as a record, where its value amounts to `answer`.
    spec fn record(self, answer: Answer) -> Record {
        Record {
            answer,
            changed_at: self.changed_at.number(),
            verified_at: self.verified_at.number(),
            deps: self.deps@,
        }
    }
}

/// Accumulates the reads attributed to one in-flight query.
///
/// Frames form a stack so that a query calling another query does not steal its
/// callee's reads.
struct QueryFrame {
    /// The query being computed, or `None` for a validation frame whose
    /// recorded reads are discarded.
    key: Option<DepKey>,
    deps: Vec<DepKey>,
}

impl QueryFrame {
    spec fn frame(self) -> Frame {
        Frame { key: self.key, deps: self.deps@ }
    }
}

/// When the memo of `file` was last verified, and what it read.
fn last_check<V>(memos: &HashMap<u32, Memo<V>>, file: FileId) -> (check: Option<
    (Revision, Vec<DepKey>),
>)
    ensures
        match check {
            Some((verified_at, deps)) => {
                &&& memos@.contains_key(file.0)
                &&& memos@[file.0].verified_at == verified_at
                &&& memos@[file.0].deps@ == deps@
            },
            None => !memos@.contains_key(file.0),
        },
{
    match memos.get(&file.0) {
        Some(memo) => {
            let deps = memo.deps.clone();
            assert(deps@ =~= memo.deps@);
            Some((memo.verified_at, deps))
        },
        None => None,
    }
}

/// Marks the memo of `file` as verified at `now`.
fn confirm<V>(memos: &mut HashMap<u32, Memo<V>>, file: FileId, now: Revision)
    requires
        old(memos)@.contains_key(file.0),
    ensures
        final(memos)@ == old(memos)@.insert(
            file.0,
            (Memo { verified_at: now, ..old(memos)@[file.0] }),
        ),
{
    let ghost before = memos@;
    if let Some(memo) = memos.remove(&file.0) {
        memos.insert(file.0, Memo { verified_at: now, ..memo });
        assert(memos@ =~= before.insert(file.0, Memo { verified_at: now, ..before[file.0] }));
    }
}

/// Storage for all inputs, memos, and the event log.
///
/// Queries are methods on this type. Reads take `&mut self` because servicing a
/// query may populate the memo table and record dependencies.
pub struct Db {
    current: Revision,
    // Inputs, paired with the revision at which each was last written.
    source_texts: HashMap<u32, String>,
    source_text_changed_at: HashMap<u32, Revision>,
    // Memo tables, one per derived query.
    token_count_memos: HashMap<u32, Memo<usize>>,
    is_trivial_memos: HashMap<u32, Memo<bool>>,
    weight_memos: HashMap<u32, Memo<usize>>,
    lexed_memos: HashMap<u32, Memo<Lexed>>,
    interner: Interner,
    stack: Vec<QueryFrame>,
    events: Vec<Event>,
}

impl View for Db {
    type V = Store;

    /// Everything that the database knows, apart from what is in progress.
    closed spec fn view(&self) -> Store {
        Store {
            revision: self.current.number(),
            inputs: Map::new(
                |file: FileId| self.source_texts@.contains_key(file.0),
                |file: FileId|
                    Input {
                        text: self.source_texts@[file.0]@,
                        changed_at: self.source_text_changed_at@[file.0].number(),
                    },
            ),
            memos: Map::new(
                |key: DepKey| self.record(key) is Some,
                |key: DepKey| self.record(key)->0,
            ),
            names: self.interner@,
            log: happenings(self.events@),
        }
    }
}

impl Db {
    /// The memo of `key`, if there is one.
    closed spec fn record(&self, key: DepKey) -> Option<Record> {
        match key {
            DepKey::SourceText(_) => None,
            DepKey::TokenCount(file) => if self.token_count_memos@.contains_key(file.0) {
                let memo = self.token_count_memos@[file.0];
                Some(memo.record(Answer::Count(memo.value as nat)))
            } else {
                None
            },
            DepKey::IsTrivial(file) => if self.is_trivial_memos@.contains_key(file.0) {
                let memo = self.is_trivial_memos@[file.0];
                Some(memo.record(Answer::Flag(memo.value)))
            } else {
                None
            },
            DepKey::Weight(file) => if self.weight_memos@.contains_key(file.0) {
                let memo = self.weight_memos@[file.0];
                Some(memo.record(Answer::Count(memo.value as nat)))
            } else {
                None
            },
            DepKey::Lexed(file) => if self.lexed_memos@.contains_key(file.0) {
                let memo = self.lexed_memos@[file.0];
                Some(
                    memo.record(
                        Answer::Tokens { tokens: memo.value.tokens@, errors: memo.value.errors@ },
                    ),
                )
            } else {
                None
            },
        }
    }

    /// The queries in progress, the innermost last. There are none unless a
    /// query is being served.
    pub closed spec fn frames(&self) -> Seq<Frame> {
        Seq::new(self.stack@.len(), |i: int| self.stack@[i].frame())
    }

    /// The tables belong together.
    pub closed spec fn consistent(&self) -> bool {
        &&& self.source_texts@.dom() == self.source_text_changed_at@.dom()
        &&& self.interner.wf()
    }

    /// The database is in order.
    pub open spec fn wf(&self) -> bool {
        query::coherent(self@) && self.consistent()
    }

    /// `key` can be asked for: its file has a text, and answering does not lead
    /// back to a query in progress. A text to be lexed is one whose positions fit
    /// into 32 bits.
    pub open spec fn can_ask(&self, key: DepKey) -> bool {
        &&& self@.inputs.contains_key(query::file_of(key))
        &&& query::acyclic(self.frames(), key)
        &&& key is Lexed ==> text::byte_len(self@.inputs[query::file_of(key)].text) <= u32::MAX
    }

    /// An empty database.
    pub fn new() -> (db: Db)
        ensures
            db.wf(),
            db@ == Store::fresh(),
            db.frames().len() == 0,
            db@.revision == 0,
            db@.inputs.dom() == Set::<FileId>::empty(),
            db@.memos.dom() == Set::<DepKey>::empty(),
            db@.names == symbol::keywords(),
            db@.log.len() == 0,
    {
        proof {
            symbol::lemma_keywords_distinct();
        }
        let db = Db {
            current: Revision::start(),
            source_texts: HashMap::new(),
            source_text_changed_at: HashMap::new(),
            token_count_memos: HashMap::new(),
            is_trivial_memos: HashMap::new(),
            weight_memos: HashMap::new(),
            lexed_memos: HashMap::new(),
            interner: Interner::new(),
            stack: Vec::new(),
            events: Vec::new(),
        };
        assert(db@ =~= Store::fresh());
        db
    }

    /// Sets the text of `file`, advancing the current revision.
    ///
    /// Takes `&mut self` because writing an input may invalidate values derived
    /// from it.
    pub fn set_source_text(&mut self, file: FileId, text: String)
        requires
            old(self).wf(),
            old(self)@.revision < u64::MAX,
        ensures
            final(self).wf(),
            final(self)@ == old(self)@.write(file, text@),
            final(self).frames() == old(self).frames(),
            final(self)@.revision == old(self)@.revision + 1,
            final(self)@.inputs.contains_key(file),
            final(self)@.inputs[file].text == text@,
            final(self)@.inputs[file].changed_at == final(self)@.revision,
            forall|other: FileId|
                other != file ==> {
                    &&& #[trigger] final(self)@.inputs.contains_key(other) <==> old(
                        self,
                    )@.inputs.contains_key(other)
                    &&& old(self)@.inputs.contains_key(other) ==> final(self)@.inputs[other]
                        == old(self)@.inputs[other]
                },
            final(self)@.memos == old(self)@.memos,
            final(self)@.names == old(self)@.names,
            final(self)@.log == old(self)@.log,
    {
        let ghost before = self@;
        self.current = self.current.next();
        self.source_text_changed_at.insert(file.0, self.current);
        self.source_texts.insert(file.0, text);
        proof {
            assert(self@ =~= before.write(file, text@));
            query::lemma_write(before, file, text@);
            assert(self.source_texts@.dom() =~= self.source_text_changed_at@.dom());
        }
    }

    /// Returns the text of `file`, recording the read as a dependency.
    fn source_text(&mut self, file: FileId) -> (text: &str)
        requires
            old(self).wf(),
            old(self)@.inputs.contains_key(file),
        ensures
            final(self).wf(),
            final(self)@ == old(self)@,
            final(self).frames() == query::recorded(
                old(self).frames(),
                DepKey::SourceText(file),
            ),
            text@ == old(self)@.inputs[file].text,
    {
        self.record_dep(DepKey::SourceText(file));
        self.source_texts.get(&file.0).expect("read of a FileId with no source text set").as_str()
    }

    /// Attributes a read to the query currently executing, if any.
    ///
    /// Reads issued outside a query - by the driver, say - are intentionally
    /// not recorded: they belong to no memo.
    fn record_dep(&mut self, dep: DepKey)
        requires
            old(self).consistent(),
        ensures
            final(self).consistent(),
            final(self)@ == old(self)@,
            final(self).frames() == query::recorded(old(self).frames(), dep),
    {
        let ghost before = *self;
        if let Some(mut frame) = self.stack.pop() {
            // Dependency sets are small, so a linear scan beats a hash set.
            if !has_dep(&frame.deps, dep) {
                frame.deps.push(dep);
            }
            self.stack.push(frame);
        }
        proof {
            assert(self@ =~= before@);
            assert(self.frames() =~= query::recorded(before.frames(), dep));
        }
    }

    /// Opens a frame for the body of `key`, which must not be in progress
    /// already: a cyclic query graph has no least fixed point to converge on.
    fn push_frame(&mut self, key: DepKey)
        requires
            old(self).consistent(),
            forall|i: int|
                0 <= i < old(self).frames().len() ==> (#[trigger] old(self).frames()[i]).key
                    != Some(key),
        ensures
            final(self).consistent(),
            final(self)@ == old(self)@,
            final(self).frames() == old(self).frames().push(
                Frame { key: Some(key), deps: Seq::empty() },
            ),
    {
        let ghost before = *self;
        self.stack.push(QueryFrame { key: Some(key), deps: Vec::new() });
        proof {
            assert(self@ =~= before@);
            assert(self.frames() =~= before.frames().push(
                Frame { key: Some(key), deps: Seq::empty() },
            ));
        }
    }

    /// Closes the innermost frame and yields what it read.
    fn pop_frame(&mut self) -> (deps: Vec<DepKey>)
        requires
            old(self).consistent(),
            old(self).frames().len() > 0,
        ensures
            final(self).consistent(),
            final(self)@ == old(self)@,
            final(self).frames() == old(self).frames().drop_last(),
            deps@ == old(self).frames().last().deps,
    {
        let ghost before = *self;
        let frame = self.stack.pop().expect("query stack underflow");
        proof {
            assert(self@ =~= before@);
            assert(self.frames() =~= before.frames().drop_last());
            assert(before.frames().last() == frame.frame());
        }
        frame.deps
    }

    /// Logs that the body of `key` runs, and opens a frame for it.
    fn start(&mut self, key: DepKey)
        requires
            old(self).wf(),
            query::acyclic(old(self).frames(), key),
        ensures
            final(self).wf(),
            final(self)@ == old(self)@.note(Happening::Executed(query::title(key))),
            final(self).frames() == old(self).frames().push(
                Frame { key: Some(key), deps: Seq::empty() },
            ),
    {
        let ghost before = *self;
        self.events.push(Event::Executed(key.title()));
        proof {
            assert(self@ =~= before@.note(Happening::Executed(query::title(key))));
            assert(self.frames() =~= before.frames());
            query::lemma_note(before@, Happening::Executed(query::title(key)));
        }
        self.push_frame(key);
    }

    /// Whether the memo of `key` can be used. `last` says when it was last
    /// verified and what it read, if there is a memo.
    fn is_fresh(&mut self, key: DepKey, last: Option<(Revision, Vec<DepKey>)>) -> (fresh: bool)
        requires
            old(self).wf(),
            old(self).can_ask(key),
            key !is SourceText,
            match last {
                Some((verified_at, deps)) => {
                    &&& old(self)@.memos.contains_key(key)
                    &&& old(self)@.memos[key].verified_at == verified_at.number()
                    &&& old(self)@.memos[key].deps == deps@
                },
                None => !old(self)@.memos.contains_key(key),
            },
        ensures
            final(self).wf(),
            (final(self)@, fresh) == query::check(old(self)@, key),
            final(self).frames() == old(self).frames(),
        decreases query::rank(key), 2nat,
    {
        match last {
            Some((verified_at, deps)) => {
                if verified_at == self.current {
                    return true;
                }
                proof {
                    assert(query::sound(self@, key));
                    query::lemma_dependencies(key);
                    query::lemma_acyclic_down(self.frames(), key);
                }
                self.deps_unchanged(deps.as_slice(), verified_at)
            },
            None => false,
        }
    }

    /// Brings each of `deps` up to date and reports whether all of them last
    /// changed no later than `verified_at`.
    fn deps_unchanged(&mut self, deps: &[DepKey], verified_at: Revision) -> (unchanged: bool)
        requires
            old(self).wf(),
            forall|i: int| 0 <= i < deps@.len() ==> old(self).can_ask(#[trigger] deps@[i]),
        ensures
            final(self).wf(),
            (final(self)@, unchanged) == query::validate(
                old(self)@,
                deps@,
                verified_at.number(),
            ),
            final(self).frames() == old(self).frames(),
        decreases query::height(deps@), 1nat,
    {
        // Bringing a dependency up to date invokes it, and a query registers
        // itself with whatever frame is on top. Those registrations belong to
        // no memo, so they are collected into a frame that is discarded.
        // Without this, validating one query would attach spurious edges to an
        // unrelated query that happens to be executing.
        let ghost before = *self;
        self.stack.push(QueryFrame { key: None, deps: Vec::new() });
        proof {
            assert(self@ =~= before@);
            assert(self.frames() =~= before.frames().push(
                Frame { key: None, deps: Seq::empty() },
            ));
            assert(deps@.skip(0) =~= deps@);
        }
        let ghost goal = query::validate(before@, deps@, verified_at.number());

        let mut unchanged = true;
        let mut i: usize = 0;
        while i < deps.len()
            invariant_except_break
                unchanged,
                goal == query::validate(
                    self@,
                    deps@.skip(i as int),
                    verified_at.number(),
                ),
            invariant
                before == *old(self),
                self.wf(),
                i <= deps@.len(),
                query::follows(before@, self@),
                self.frames().len() == before.frames().len() + 1,
                self.frames().drop_last() == before.frames(),
                self.frames().last().key is None,
                forall|j: int| 0 <= j < deps@.len() ==> before.can_ask(#[trigger] deps@[j]),
                goal == query::validate(before@, deps@, verified_at.number()),
            ensures
                goal == (self@, unchanged),
            decreases deps@.len() - i,
        {
            let dep = deps[i];
            let ghost here = *self;
            proof {
                assert(deps@.skip(i as int)[0] == dep);
                assert(deps@.skip(i as int).drop_first() =~= deps@.skip(i as int + 1));
                assert(before.can_ask(deps@[i as int]));
                query::lemma_height(deps@, i as int);
                query::lemma_acyclic_checking(self.frames(), before.frames(), dep);
                query::lemma_serve(self@, dep);
            }
            if self.changed_at(dep).0 > verified_at.0 {
                unchanged = false;
                break;
            }
            i += 1;
        }

        let ghost after = *self;
        self.stack.pop();
        proof {
            assert(self@ =~= after@);
            assert(self.frames() =~= before.frames());
        }
        unchanged
    }

    /// Brings `dep` up to date and returns the revision at which its value last
    /// changed.
    ///
    /// For an input this is a stored fact. For a derived query it is not: the
    /// query has to be run, or at least revalidated, before the answer exists.
    fn changed_at(&mut self, dep: DepKey) -> (revision: Revision)
        requires
            old(self).wf(),
            old(self).can_ask(dep),
        ensures
            final(self).wf(),
            final(self)@ == query::serve(old(self)@, dep),
            revision.number() == final(self)@.changed_at(dep),
            final(self).frames() == if dep is SourceText {
                old(self).frames()
            } else {
                query::recorded(old(self).frames(), dep)
            },
        decreases query::rank(dep), 4nat,
    {
        proof {
            query::lemma_serve(self@, dep);
        }
        match dep {
            DepKey::SourceText(file) => {
                assert(self.source_texts@.dom().contains(file.0));
                match self.source_text_changed_at.get(&file.0) {
                    Some(revision) => *revision,
                    None => Revision::start(),
                }
            },
            DepKey::TokenCount(file) => {
                self.token_count(file);
                self.token_count_memos.get(&file.0).expect(
                    "memo absent after its query ran",
                ).changed_at
            },
            DepKey::IsTrivial(file) => {
                self.is_trivial(file);
                self.is_trivial_memos.get(&file.0).expect(
                    "memo absent after its query ran",
                ).changed_at
            },
            DepKey::Weight(file) => {
                self.weight(file);
                self.weight_memos.get(&file.0).expect("memo absent after its query ran").changed_at
            },
            DepKey::Lexed(file) => {
                self.lexed(file);
                self.lexed_memos.get(&file.0).expect("memo absent after its query ran").changed_at
            },
        }
    }

    /// Counts whitespace-separated tokens in `file`.
    #[verifier::rlimit(40)]
    pub fn token_count(&mut self, file: FileId) -> (count: usize)
        requires
            old(self).wf(),
            old(self).can_ask(DepKey::TokenCount(file)),
        ensures
            final(self).wf(),
            final(self)@ == query::serve(old(self)@, DepKey::TokenCount(file)),
            query::follows(old(self)@, final(self)@),
            final(self).frames() == query::recorded(
                old(self).frames(),
                DepKey::TokenCount(file),
            ),
            count == text::words(old(self)@.inputs[file].text),
        decreases query::rank(DepKey::TokenCount(file)), 3nat,
    {
        let key = DepKey::TokenCount(file);
        let ghost before = *self;
        self.record_dep(key);
        let ghost asked = *self;
        proof {
            query::lemma_check(before@, key);
            query::lemma_serve(before@, key);
            query::lemma_serve_answers(before@, key);
            query::lemma_acyclic_recorded(before.frames(), key, key);
            query::lemma_acyclic_down(self.frames(), key);
        }
        let last = last_check(&self.token_count_memos, file);
        let fresh = self.is_fresh(key, last);
        let ghost checked = *self;
        if fresh {
            confirm(&mut self.token_count_memos, file, self.current);
            self.events.push(Event::Reused(key.title()));
            let value = self.token_count_memos.get(&file.0).expect(
                "memo absent after its query ran",
            ).value;
            proof {
                assert(self@ =~= checked@.confirm(key).note(Happening::Reused(query::title(key))));
                assert(self.frames() =~= checked.frames());
            }
            return value;
        }
        // Captured before the body runs, so the memo can never claim to have
        // been verified against a revision later than the one it observed.
        let revision = self.current;
        self.start(key);
        let ghost started = *self;
        proof {
            query::lemma_recorded_dependencies(checked.frames(), key);
            query::lemma_serve_dependencies(started@, key);
        }
        let value = self.token_count_impl(file);
        let deps = self.pop_frame();

        // Backdating. Recomputing an identical value is not a change, so the
        // older change revision stands and dependents are left green. Note that
        // this cannot spare the query itself: discovering that the value is
        // unchanged requires running the body.
        let changed_at = match self.token_count_memos.get(&file.0) {
            Some(stale) => if stale.value == value {
                stale.changed_at
            } else {
                revision
            },
            None => revision,
        };
        self.token_count_memos.insert(
            file.0,
            Memo { value, changed_at, verified_at: revision, deps },
        );
        proof {
            let ready = query::serve_all(started@, query::dependencies(key));
            assert(query::serve(before@, key) == ready.remember(key));
            assert(ready.computed(key) == ready.remember(key).memos[key].answer);
            assert(self@ =~= ready.remember(key));
            assert(self.frames() =~= asked.frames());
        }
        value
    }

    fn token_count_impl(&mut self, file: FileId) -> (count: usize)
        requires
            old(self).wf(),
            old(self)@.inputs.contains_key(file),
        ensures
            final(self).wf(),
            final(self)@ == query::serve_all(
                old(self)@,
                query::dependencies(DepKey::TokenCount(file)),
            ),
            final(self).frames() == query::recorded(
                old(self).frames(),
                DepKey::SourceText(file),
            ),
            count == text::words(old(self)@.inputs[file].text),
        decreases query::rank(DepKey::TokenCount(file)), 1nat,
    {
        proof {
            query::lemma_serve_dependencies(self@, DepKey::TokenCount(file));
        }
        text::count_words(self.source_text(file))
    }

    /// Whether `file` holds fewer than three tokens.
    ///
    /// Derived from another derived query rather than from an input, which is
    /// what makes validation recursive.
    #[verifier::rlimit(40)]
    pub fn is_trivial(&mut self, file: FileId) -> (trivial: bool)
        requires
            old(self).wf(),
            old(self).can_ask(DepKey::IsTrivial(file)),
        ensures
            final(self).wf(),
            final(self)@ == query::serve(old(self)@, DepKey::IsTrivial(file)),
            query::follows(old(self)@, final(self)@),
            final(self).frames() == query::recorded(
                old(self).frames(),
                DepKey::IsTrivial(file),
            ),
            trivial == (text::words(old(self)@.inputs[file].text) < 3),
        decreases query::rank(DepKey::IsTrivial(file)), 3nat,
    {
        let key = DepKey::IsTrivial(file);
        let ghost before = *self;
        self.record_dep(key);
        let ghost asked = *self;
        proof {
            query::lemma_check(before@, key);
            query::lemma_serve(before@, key);
            query::lemma_serve_answers(before@, key);
            query::lemma_acyclic_recorded(before.frames(), key, key);
            query::lemma_acyclic_down(self.frames(), key);
        }
        let last = last_check(&self.is_trivial_memos, file);
        let fresh = self.is_fresh(key, last);
        let ghost checked = *self;
        if fresh {
            confirm(&mut self.is_trivial_memos, file, self.current);
            self.events.push(Event::Reused(key.title()));
            let value = self.is_trivial_memos.get(&file.0).expect(
                "memo absent after its query ran",
            ).value;
            proof {
                assert(self@ =~= checked@.confirm(key).note(Happening::Reused(query::title(key))));
                assert(self.frames() =~= checked.frames());
            }
            return value;
        }
        let revision = self.current;
        self.start(key);
        let ghost started = *self;
        proof {
            query::lemma_recorded_dependencies(checked.frames(), key);
            query::lemma_serve_dependencies(started@, key);
        }
        let value = self.is_trivial_impl(file);
        let deps = self.pop_frame();

        let changed_at = match self.is_trivial_memos.get(&file.0) {
            Some(stale) => if stale.value == value {
                stale.changed_at
            } else {
                revision
            },
            None => revision,
        };
        self.is_trivial_memos.insert(
            file.0,
            Memo { value, changed_at, verified_at: revision, deps },
        );
        proof {
            let ready = query::serve_all(started@, query::dependencies(key));
            assert(query::serve(before@, key) == ready.remember(key));
            assert(ready.computed(key) == ready.remember(key).memos[key].answer);
            assert(self@ =~= ready.remember(key));
            assert(self.frames() =~= asked.frames());
        }
        value
    }

    fn is_trivial_impl(&mut self, file: FileId) -> (trivial: bool)
        requires
            old(self).wf(),
            old(self).can_ask(DepKey::TokenCount(file)),
        ensures
            final(self).wf(),
            final(self)@ == query::serve_all(
                old(self)@,
                query::dependencies(DepKey::IsTrivial(file)),
            ),
            final(self).frames() == query::recorded(
                old(self).frames(),
                DepKey::TokenCount(file),
            ),
            trivial == (text::words(old(self)@.inputs[file].text) < 3),
        decreases query::rank(DepKey::IsTrivial(file)), 1nat,
    {
        proof {
            query::lemma_serve_dependencies(self@, DepKey::IsTrivial(file));
        }
        self.token_count(file) < 3
    }

    /// The token count of `file`, or zero if the file is trivial.
    ///
    /// Reads two derived queries, one of which reads the other, so its
    /// dependency graph is a diamond.
    #[verifier::rlimit(40)]
    pub fn weight(&mut self, file: FileId) -> (weight: usize)
        requires
            old(self).wf(),
            old(self).can_ask(DepKey::Weight(file)),
        ensures
            final(self).wf(),
            final(self)@ == query::serve(old(self)@, DepKey::Weight(file)),
            query::follows(old(self)@, final(self)@),
            final(self).frames() == query::recorded(
                old(self).frames(),
                DepKey::Weight(file),
            ),
            weight == if text::words(old(self)@.inputs[file].text) < 3 {
                0
            } else {
                text::words(old(self)@.inputs[file].text)
            },
        decreases query::rank(DepKey::Weight(file)), 3nat,
    {
        let key = DepKey::Weight(file);
        let ghost before = *self;
        self.record_dep(key);
        let ghost asked = *self;
        proof {
            query::lemma_check(before@, key);
            query::lemma_serve(before@, key);
            query::lemma_serve_answers(before@, key);
            query::lemma_acyclic_recorded(before.frames(), key, key);
            query::lemma_acyclic_down(self.frames(), key);
        }
        let last = last_check(&self.weight_memos, file);
        let fresh = self.is_fresh(key, last);
        let ghost checked = *self;
        if fresh {
            confirm(&mut self.weight_memos, file, self.current);
            self.events.push(Event::Reused(key.title()));
            let value = self.weight_memos.get(&file.0).expect(
                "memo absent after its query ran",
            ).value;
            proof {
                assert(self@ =~= checked@.confirm(key).note(Happening::Reused(query::title(key))));
                assert(self.frames() =~= checked.frames());
            }
            return value;
        }
        let revision = self.current;
        self.start(key);
        let ghost started = *self;
        proof {
            query::lemma_recorded_dependencies(checked.frames(), key);
            query::lemma_serve_dependencies(started@, key);
        }
        let value = self.weight_impl(file);
        let deps = self.pop_frame();

        let changed_at = match self.weight_memos.get(&file.0) {
            Some(stale) => if stale.value == value {
                stale.changed_at
            } else {
                revision
            },
            None => revision,
        };
        self.weight_memos.insert(
            file.0,
            Memo { value, changed_at, verified_at: revision, deps },
        );
        proof {
            let ready = query::serve_all(started@, query::dependencies(key));
            assert(query::serve(before@, key) == ready.remember(key));
            assert(ready.computed(key) == ready.remember(key).memos[key].answer);
            assert(self@ =~= ready.remember(key));
            assert(self.frames() =~= asked.frames());
        }
        value
    }

    fn weight_impl(&mut self, file: FileId) -> (weight: usize)
        requires
            old(self).wf(),
            old(self).can_ask(DepKey::TokenCount(file)),
            old(self).can_ask(DepKey::IsTrivial(file)),
        ensures
            final(self).wf(),
            final(self)@ == query::serve_all(
                old(self)@,
                query::dependencies(DepKey::Weight(file)),
            ),
            final(self).frames() == query::recorded(
                query::recorded(old(self).frames(), DepKey::TokenCount(file)),
                DepKey::IsTrivial(file),
            ),
            weight == if text::words(old(self)@.inputs[file].text) < 3 {
                0
            } else {
                text::words(old(self)@.inputs[file].text)
            },
        decreases query::rank(DepKey::Weight(file)), 1nat,
    {
        proof {
            query::lemma_serve_dependencies(self@, DepKey::Weight(file));
            query::lemma_serve(self@, DepKey::TokenCount(file));
            query::lemma_acyclic_recorded(
                self.frames(),
                DepKey::TokenCount(file),
                DepKey::IsTrivial(file),
            );
        }
        // Both reads are unconditional so that the dependency set does not vary
        // with the input.
        let count = self.token_count(file);
        if self.is_trivial(file) {
            0
        } else {
            count
        }
    }

    /// The tokens of `file`, and everything that went wrong in finding them.
    #[verifier::rlimit(40)]
    pub fn lexed(&mut self, file: FileId) -> (lexed: Lexed)
        requires
            old(self).wf(),
            old(self).can_ask(DepKey::Lexed(file)),
        ensures
            final(self).wf(),
            final(self)@ == query::serve(old(self)@, DepKey::Lexed(file)),
            query::follows(old(self)@, final(self)@),
            final(self).frames() == query::recorded(
                old(self).frames(),
                DepKey::Lexed(file),
            ),
            lexed.holds(
                token::lexing(old(self)@.inputs[file].text, old(self)@.names).tokens,
                token::lexing(old(self)@.inputs[file].text, old(self)@.names).errors,
            ),
            final(self)@.names == token::lexing(
                old(self)@.inputs[file].text,
                old(self)@.names,
            ).names,
            lexed.tokens@ == token::lexing(
                old(self)@.inputs[file].text,
                old(self)@.names,
            ).tokens,
            lexed.errors@ == token::lexing(
                old(self)@.inputs[file].text,
                old(self)@.names,
            ).errors,
            token::ends_in_eof(lexed.tokens@),
            token::in_order(lexed.tokens@),
        decreases query::rank(DepKey::Lexed(file)), 3nat,
    {
        let key = DepKey::Lexed(file);
        let ghost before = *self;
        self.record_dep(key);
        let ghost asked = *self;
        proof {
            token::laws::lemma_stream_ends_in_eof(before@.inputs[file].text, before@.names);
            query::lemma_check(before@, key);
            query::lemma_serve(before@, key);
            query::lemma_serve_answers(before@, key);
            query::lemma_acyclic_recorded(before.frames(), key, key);
            query::lemma_acyclic_down(self.frames(), key);
        }
        let last = last_check(&self.lexed_memos, file);
        let fresh = self.is_fresh(key, last);
        let ghost checked = *self;
        if fresh {
            confirm(&mut self.lexed_memos, file, self.current);
            self.events.push(Event::Reused(key.title()));
            let value = self.lexed_memos.get(&file.0).expect(
                "memo absent after its query ran",
            ).value.clone();
            proof {
                assert(self@ =~= checked@.confirm(key).note(Happening::Reused(query::title(key))));
                assert(self.frames() =~= checked.frames());
            }
            return value;
        }
        let revision = self.current;
        self.start(key);
        let ghost started = *self;
        proof {
            query::lemma_recorded_dependencies(checked.frames(), key);
            query::lemma_serve_dependencies(started@, key);
        }
        let value = self.lexed_impl(file);
        let deps = self.pop_frame();

        let changed_at = match self.lexed_memos.get(&file.0) {
            Some(stale) => if stale.value == value {
                stale.changed_at
            } else {
                revision
            },
            None => revision,
        };
        self.lexed_memos.insert(
            file.0,
            Memo { value: value.clone(), changed_at, verified_at: revision, deps },
        );
        proof {
            let ready = query::serve_all(started@, query::dependencies(key));
            assert(query::serve(before@, key) == ready.remember(key));
            assert(ready.computed(key) == ready.remember(key).memos[key].answer);
            assert(self@ =~= ready.remember(key));
            assert(self.frames() =~= asked.frames());
        }
        value
    }

    fn lexed_impl(&mut self, file: FileId) -> (lexed: Lexed)
        requires
            old(self).wf(),
            old(self)@.inputs.contains_key(file),
            text::byte_len(old(self)@.inputs[file].text) <= u32::MAX,
        ensures
            final(self).consistent(),
            final(self)@ == (Store {
                names: token::lexing(old(self)@.inputs[file].text, old(self)@.names).names,
                ..old(self)@
            }),
            final(self).frames() == query::recorded(
                old(self).frames(),
                DepKey::SourceText(file),
            ),
            lexed.holds(
                token::lexing(old(self)@.inputs[file].text, old(self)@.names).tokens,
                token::lexing(old(self)@.inputs[file].text, old(self)@.names).errors,
            ),
        decreases query::rank(DepKey::Lexed(file)), 1nat,
    {
        let text = self.source_text(file).to_string();
        let ghost before = *self;
        let (tokens, errors) = lex(text.as_str(), &mut self.interner);
        proof {
            let names = token::lexing(before@.inputs[file].text, before@.names).names;
            assert(self@ =~= Store { names, ..before@ });
            assert(self.frames() =~= before.frames());
        }
        Lexed { tokens, errors }
    }

    /// The symbol for `name`, which is assigned a fresh one if it is new.
    ///
    /// Belongs to no query, and disturbs none.
    pub fn intern(&mut self, name: &str) -> (symbol: Symbol)
        requires
            old(self).wf(),
        ensures
            final(self).wf(),
            final(self)@ == old(self)@.intern(name@),
            final(self).frames() == old(self).frames(),
            final(self)@ == (Store { names: final(self)@.names, ..old(self)@ }),
            final(self)@.names == if old(self)@.names.contains(name@) {
                old(self)@.names
            } else {
                old(self)@.names.push(name@)
            },
            symbol == symbol::symbol_for(old(self)@.names, name@),
            0 <= symbol.index() < final(self)@.names.len(),
            final(self)@.names.len() <= 0x1_0000_0000 ==> final(self)@.names[symbol.index()]
                == name@,
    {
        let ghost before = *self;
        let symbol = self.interner.intern(name);
        proof {
            assert(self@ =~= before@.intern(name@));
            query::lemma_intern(before@, name@);
            assert(self.frames() =~= before.frames());
        }
        symbol
    }

    /// The text `symbol` stands for.
    ///
    /// What is asked is that the symbol's position is in the table of names, which
    /// holds of every symbol that this database has issued. A symbol of another
    /// database whose position happens to be in the table gives the text that
    /// this database has there; see [`Interner::get`].
    pub fn symbol_text(&self, symbol: Symbol) -> (text: &str)
        requires
            symbol.index() < self@.names.len(),
        ensures
            text@ == self@.names[symbol.index()],
    {
        self.interner.get(symbol)
    }

    /// Drains the event log.
    pub fn take_events(&mut self) -> (events: Vec<Event>)
        requires
            old(self).wf(),
        ensures
            final(self).wf(),
            final(self)@ == (Store { log: Seq::empty(), ..old(self)@ }),
            final(self).frames() == old(self).frames(),
            happenings(events@) == old(self)@.log,
            events@.len() == old(self)@.log.len(),
            forall|i: int|
                0 <= i < events@.len() ==> match #[trigger] events@[i] {
                    Event::Executed(title) => old(self)@.log[i] == Happening::Executed(title@),
                    Event::Reused(title) => old(self)@.log[i] == Happening::Reused(title@),
                },
    {
        let ghost before = *self;
        let mut events: Vec<Event> = Vec::new();
        std::mem::swap(&mut self.events, &mut events);
        proof {
            assert forall|i: int| 0 <= i < events@.len() implies happenings(events@)[i] == (
            #[trigger] events@[i]).happening() by {}
            assert(self@ =~= Store { log: Seq::empty(), ..before@ });
            query::lemma_forget(before@);
            assert(self.frames() =~= before.frames());
        }
        events
    }
}

impl Default for Db {
    fn default() -> (db: Db)
        ensures
            db.wf(),
            db@ == Store::fresh(),
            db.frames().len() == 0,
            db@.revision == 0,
            db@.inputs.dom() == Set::<FileId>::empty(),
            db@.memos.dom() == Set::<DepKey>::empty(),
            db@.names == symbol::keywords(),
            db@.log.len() == 0,
    {
        Db::new()
    }
}

/// Whether `dep` is among `deps`.
fn has_dep(deps: &Vec<DepKey>, dep: DepKey) -> (found: bool)
    ensures
        found == deps@.contains(dep),
{
    for i in 0..deps.len()
        invariant
            forall|j: int| 0 <= j < i ==> deps@[j] != dep,
    {
        if deps[i] == dep {
            return true;
        }
    }
    false
}

} // verus!
