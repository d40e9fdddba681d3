//! What the query database promises.
//!
//! The answers are always right, and bodies run only when they have to. The
//! laws about running speak of the log, which [`lemma_titles_are_distinct`]
//! makes unambiguous.
use crate::db::{DepKey, FileId};
use crate::query;
use crate::query::{Answer, Happening, Record, Store};
use crate::text;
use crate::token;
use vstd::prelude::*;

verus! {

/// The happening of `key` being computed.
pub open spec fn executed(key: DepKey) -> Happening {
    Happening::Executed(query::title(key))
}

/// The happening of the memo of `key` being used.
pub open spec fn reused(key: DepKey) -> Happening {
    Happening::Reused(query::title(key))
}

/// What the log calls each query, and what each reads, in order.
pub proof fn lemma_what_the_queries_are(file: FileId)
    ensures
        query::title(DepKey::TokenCount(file)) == "token_count("@ + text::decimal(file.0 as nat)
            + ")"@,
        query::title(DepKey::IsTrivial(file)) == "is_trivial("@ + text::decimal(file.0 as nat)
            + ")"@,
        query::title(DepKey::Weight(file)) == "weight("@ + text::decimal(file.0 as nat) + ")"@,
        query::title(DepKey::Lexed(file)) == "lexed("@ + text::decimal(file.0 as nat) + ")"@,
        query::dependencies(DepKey::TokenCount(file)) == seq![DepKey::SourceText(file)],
        query::dependencies(DepKey::IsTrivial(file)) == seq![DepKey::TokenCount(file)],
        query::dependencies(DepKey::Weight(file)) == seq![
            DepKey::TokenCount(file),
            DepKey::IsTrivial(file),
        ],
        query::dependencies(DepKey::Lexed(file)) == seq![DepKey::SourceText(file)],
{
}

/// A written text is the one that is kept, whatever was there before, and no other
/// file is affected. Every query about the file is answered from it from then on,
/// whatever was memoized.
pub proof fn lemma_answers_follow_the_text(store: Store, file: FileId, source: Seq<char>)
    requires
        query::coherent(store),
    ensures
        ({
            let written = store.write(file, source);
            let count = text::words(source);
            let cooked = token::lexing(source, store.names);
            &&& written.revision == store.revision + 1
            &&& written.inputs.contains_key(file)
            &&& written.inputs[file].text == source
            &&& written.inputs[file].changed_at == store.revision + 1
            &&& written.inputs.remove(file) == store.inputs.remove(file)
            &&& written.memos == store.memos && written.names == store.names && written.log
                == store.log
            &&& query::serve(written, DepKey::TokenCount(file)).memos[DepKey::TokenCount(
                file,
            )].answer == Answer::Count(count)
            &&& query::serve(written, DepKey::IsTrivial(file)).memos[DepKey::IsTrivial(
                file,
            )].answer == Answer::Flag(count < 3)
            &&& query::serve(written, DepKey::Weight(file)).memos[DepKey::Weight(file)].answer
                == Answer::Count(
                if count < 3 {
                    0
                } else {
                    count
                },
            )
            &&& query::serve(written, DepKey::Lexed(file)).memos[DepKey::Lexed(file)].answer == (
            Answer::Tokens { tokens: cooked.tokens, errors: cooked.errors })
            &&& query::serve(written, DepKey::Lexed(file)).names == cooked.names
        }),
{
    let written = store.write(file, source);
    query::lemma_write(store, file, source);
    query::lemma_serve_answers(written, DepKey::TokenCount(file));
    query::lemma_serve_answers(written, DepKey::IsTrivial(file));
    query::lemma_serve_answers(written, DepKey::Weight(file));
    query::lemma_serve_answers(written, DepKey::Lexed(file));
    assert(written.inputs.remove(file) =~= store.inputs.remove(file));
}

/// The answer of a query that has been served is right for the text that its file
/// has, whatever was written, asked and interned before.
pub proof fn lemma_answers_are_right(store: Store, file: FileId)
    requires
        query::coherent(store),
        store.inputs.contains_key(file),
    ensures
        ({
            let count = text::words(store.inputs[file].text);
            let cooked = token::lexing(store.inputs[file].text, store.names);
            &&& query::serve(store, DepKey::TokenCount(file)).memos[DepKey::TokenCount(
                file,
            )].answer == Answer::Count(count)
            &&& query::serve(store, DepKey::IsTrivial(file)).memos[DepKey::IsTrivial(
                file,
            )].answer == Answer::Flag(count < 3)
            &&& query::serve(store, DepKey::Weight(file)).memos[DepKey::Weight(file)].answer
                == Answer::Count(
                if count < 3 {
                    0
                } else {
                    count
                },
            )
            &&& query::serve(store, DepKey::Lexed(file)).memos[DepKey::Lexed(file)].answer == (
            Answer::Tokens { tokens: cooked.tokens, errors: cooked.errors })
            &&& query::serve(store, DepKey::Lexed(file)).names == cooked.names
        }),
{
    query::lemma_serve_answers(store, DepKey::TokenCount(file));
    query::lemma_serve_answers(store, DepKey::IsTrivial(file));
    query::lemma_serve_answers(store, DepKey::Weight(file));
    query::lemma_serve_answers(store, DepKey::Lexed(file));
}

/// A body runs exactly when it has to: when there is no memo, or when something
/// that the memo read turns out to have changed since the memo was confirmed.
pub proof fn lemma_a_body_runs_exactly_when_it_must(store: Store, key: DepKey)
    requires
        query::coherent(store),
        key !is SourceText,
        store.inputs.contains_key(query::file_of(key)),
    ensures
        ({
            let later = query::serve(store, key);
            computed(store, later, key) <==> {
                ||| !store.memos.contains_key(key)
                ||| exists|i: int|
                    0 <= i < query::dependencies(key).len() && later.changed_at(
                        #[trigger] query::dependencies(key)[i],
                    ) > store.memos[key].verified_at
            }
        }),
{
    let deps = query::dependencies(key);
    let (checked, usable) = query::check(store, key);
    let later = query::serve(store, key);
    query::lemma_dependencies(key);
    query::lemma_check(store, key);
    query::lemma_serve(store, key);
    lemma_a_call_computes_once(store, key);
    assert forall|i: int| 0 <= i < deps.len() implies query::current(later, #[trigger] deps[i]) by {
        query::lemma_current_agrees(later, key);
    }
    if usable {
        lemma_nothing_run_in_check(store, key);
        assert forall|i: int| 0 <= i < deps.len() implies later.changed_at(#[trigger] deps[i])
            <= store.memos[key].verified_at by {
            assert(query::current(checked, deps[i]));
            assert(checked.changed_at(deps[i]) <= checked.memos[key].verified_at);
            assert(deps[i] != key);
        }
    } else {
        let started = checked.note(executed(key));
        let ready = query::serve_all(started, deps);
        query::lemma_note(checked, executed(key));
        query::lemma_serve_all(started, deps);
        let here = checked.log.len() as int;
        assert(started.log[here] == executed(key));
        assert(ready.log[here] == executed(key));
        assert(later.log[here] == executed(key));
        assert(computed(store, later, key));
        if store.memos.contains_key(key) {
            assert(query::sound(store, key));
            let since = store.memos[key].verified_at;
            let dep = lemma_what_has_changed(store, deps, since);
            assert(query::current(checked, dep));
            assert(checked.changed_at(dep) > since);
            let i = choose|i: int| 0 <= i < deps.len() && #[trigger] deps[i] == dep;
            assert(deps[i] == dep);
            if dep !is SourceText {
                assert(checked.memos.contains_key(dep));
                assert(started.memos.contains_key(dep));
                assert(ready.memos[dep] == checked.memos[dep]);
                assert(dep != key);
            }
            assert(later.changed_at(deps[i]) > since);
        }
    }
}

/// What asking a query does besides answering it.
///
/// No text is written and no revision starts. The names and the log only grow,
/// and only lexing finds names. The memo of the query is up to date afterwards and
/// names what was read. Its answer is new in this revision if there was none
/// before. A call that does not run the body is logged as such, last of all.
pub proof fn lemma_what_asking_does(store: Store, key: DepKey)
    requires
        query::coherent(store),
        key !is SourceText,
        store.inputs.contains_key(query::file_of(key)),
    ensures
        ({
            let later = query::serve(store, key);
            &&& later.revision == store.revision
            &&& later.inputs == store.inputs
            &&& store.names.is_prefix_of(later.names)
            &&& key !is Lexed ==> later.names == store.names
            &&& store.log.is_prefix_of(later.log)
            &&& store.log.len() < later.log.len()
            &&& later.memos.contains_key(key)
            &&& later.memos[key].verified_at == store.revision
            &&& later.memos[key].deps == query::dependencies(key)
            &&& !store.memos.contains_key(key) ==> later.memos[key].changed_at == store.revision
            &&& !computed(store, later, key) ==> later.log.last() == reused(key)
        }),
{
    let (checked, usable) = query::check(store, key);
    let later = query::serve(store, key);
    query::lemma_dependencies(key);
    query::lemma_check(store, key);
    query::lemma_serve(store, key);
    assert(query::sound(later, key));
    if key !is Lexed {
        lemma_names_are_found_by_lexing(store, key);
    }
    if !usable {
        let started = checked.note(executed(key));
        let ready = query::serve_all(started, query::dependencies(key));
        query::lemma_note(checked, executed(key));
        query::lemma_serve_all(started, query::dependencies(key));
        let here = checked.log.len() as int;
        assert(started.log[here] == executed(key));
        assert(ready.log[here] == executed(key));
        assert(later.log[here] == executed(key));
        if query::reaches(key, key) {
            query::lemma_reaches_down(key, key);
        }
        query::lemma_not_reached(key, key);
        query::lemma_serve_all_touches(started, query::dependencies(key), key);
        if !store.memos.contains_key(key) {
            assert(!ready.memos.contains_key(key));
        }
    }
}

/// Asking a query touches no memo but its own and those of what it reads, loses
/// none, and leaves alone what is up to date.
pub proof fn lemma_what_asking_leaves_alone(store: Store, key: DepKey, other: DepKey)
    requires
        query::coherent(store),
        store.inputs.contains_key(query::file_of(key)),
    ensures
        ({
            let later = query::serve(store, key);
            &&& other != key && !query::reaches(key, other) ==> {
                &&& later.memos.contains_key(other) <==> store.memos.contains_key(other)
                &&& store.memos.contains_key(other) ==> later.memos[other] == store.memos[other]
            }
            &&& store.memos.contains_key(other) ==> later.memos.contains_key(other)
            &&& store.memos.contains_key(other) && store.memos[other].verified_at
                == store.revision ==> later.memos[other] == store.memos[other]
        }),
{
    query::lemma_serve(store, key);
    if other != key && !query::reaches(key, other) {
        query::lemma_serve_touches(store, key, other);
    }
}

/// The happening is about `key` or about something that it reads.
pub open spec fn concerns(happening: Happening, key: DepKey) -> bool {
    exists|other: DepKey|
        (other == key || query::reaches(key, other)) && (happening == #[trigger] executed(other)
            || happening == reused(other))
}

/// What is logged in the course of a call is about the query or about something
/// that it reads.
pub proof fn lemma_the_log_is_about_the_call(store: Store, key: DepKey)
    ensures
        ({
            let later = query::serve(store, key);
            &&& store.log.is_prefix_of(later.log)
            &&& forall|i: int|
                store.log.len() <= i < later.log.len() ==> concerns(#[trigger] later.log[i], key)
        }),
    decreases query::rank(key), 2nat, 0nat,
{
    let deps = query::dependencies(key);
    let (checked, usable) = query::check(store, key);
    query::lemma_dependencies(key);
    assert forall|i: int| 0 <= i < deps.len() implies query::dependencies(key).contains(
        #[trigger] deps[i],
    ) by {}
    if key !is SourceText {
        if store.memos.contains_key(key) {
            lemma_the_log_of_validating(store, key, deps, store.memos[key].verified_at);
        }
        let mine = executed(key);
        assert(concerns(mine, key));
        assert(concerns(reused(key), key));
        let later = query::serve(store, key);
        assert(store.log.is_prefix_of(checked.log));
        if usable {
            assert(later.log == checked.log.push(reused(key)));
        } else {
            let started = checked.note(mine);
            lemma_the_log_of_serving(started, key, deps);
            assert(later.log == query::serve_all(started, deps).log);
            assert(started.log[checked.log.len() as int] == mine);
            assert(started.log.is_prefix_of(later.log));
            assert forall|i: int| 0 <= i < started.log.len() implies #[trigger] later.log[i]
                == started.log[i] by {}
        }
        assert forall|i: int| store.log.len() <= i < later.log.len() implies concerns(
            #[trigger] later.log[i],
            key,
        ) by {
            if i < checked.log.len() {
                assert(later.log[i] == checked.log[i]);
            }
        }
    }
}

/// What concerns something that is read concerns the query that reads it.
proof fn lemma_concerns_the_reader(happening: Happening, key: DepKey, dep: DepKey)
    requires
        query::dependencies(key).contains(dep),
        concerns(happening, dep),
    ensures
        concerns(happening, key),
{
    let i = query::dependencies(key).index_of(dep);
    let other = choose|other: DepKey|
        (other == dep || query::reaches(dep, other)) && (happening == #[trigger] executed(other)
            || happening == reused(other));
    assert(query::dependencies(key)[i] == dep);
    assert(query::reaches(key, other));
}

proof fn lemma_the_log_of_serving(store: Store, key: DepKey, keys: Seq<DepKey>)
    requires
        forall|i: int|
            0 <= i < keys.len() ==> query::dependencies(key).contains(#[trigger] keys[i]),
    ensures
        ({
            let later = query::serve_all(store, keys);
            &&& store.log.is_prefix_of(later.log)
            &&& forall|i: int|
                store.log.len() <= i < later.log.len() ==> concerns(#[trigger] later.log[i], key)
        }),
    decreases query::height(keys), 1nat, keys.len(),
{
    if keys.len() > 0 {
        let rest = keys.drop_first();
        let next = query::serve(store, keys[0]);
        let later = query::serve_all(store, keys);
        lemma_the_log_is_about_the_call(store, keys[0]);
        assert forall|i: int| 0 <= i < rest.len() implies query::dependencies(key).contains(
            #[trigger] rest[i],
        ) by {
            assert(rest[i] == keys[i + 1]);
        }
        lemma_the_log_of_serving(next, key, rest);
        assert forall|i: int| store.log.len() <= i < later.log.len() implies concerns(
            #[trigger] later.log[i],
            key,
        ) by {
            if i < next.log.len() {
                assert(later.log[i] == next.log[i]);
                lemma_concerns_the_reader(next.log[i], key, keys[0]);
            }
        }
    }
}

proof fn lemma_the_log_of_validating(store: Store, key: DepKey, deps: Seq<DepKey>, since: nat)
    requires
        forall|i: int|
            0 <= i < deps.len() ==> query::dependencies(key).contains(#[trigger] deps[i]),
    ensures
        ({
            let later = query::validate(store, deps, since).0;
            &&& store.log.is_prefix_of(later.log)
            &&& forall|i: int|
                store.log.len() <= i < later.log.len() ==> concerns(#[trigger] later.log[i], key)
        }),
    decreases query::height(deps), 1nat, deps.len(),
{
    if deps.len() > 0 {
        let rest = deps.drop_first();
        let next = query::serve(store, deps[0]);
        let later = query::validate(store, deps, since).0;
        lemma_the_log_is_about_the_call(store, deps[0]);
        assert forall|i: int| 0 <= i < rest.len() implies query::dependencies(key).contains(
            #[trigger] rest[i],
        ) by {
            assert(rest[i] == deps[i + 1]);
        }
        lemma_the_log_of_validating(next, key, rest, since);
        assert forall|i: int| store.log.len() <= i < later.log.len() implies concerns(
            #[trigger] later.log[i],
            key,
        ) by {
            if i < next.log.len() {
                assert(later.log[i] == next.log[i]);
                lemma_concerns_the_reader(next.log[i], key, deps[0]);
            }
        }
    }
}

/// Only lexing finds names.
proof fn lemma_names_are_found_by_lexing(store: Store, key: DepKey)
    requires
        key !is Lexed,
    ensures
        query::serve(store, key).names == store.names,
        query::check(store, key).0.names == store.names,
    decreases query::rank(key), 2nat, 0nat,
{
    let deps = query::dependencies(key);
    let (checked, usable) = query::check(store, key);
    query::lemma_dependencies(key);
    if store.memos.contains_key(key) {
        lemma_validating_finds_no_names(store, deps, store.memos[key].verified_at);
    }
    if key !is SourceText && !usable {
        lemma_serving_finds_no_names(checked.note(executed(key)), deps);
    }
}

proof fn lemma_serving_finds_no_names(store: Store, keys: Seq<DepKey>)
    requires
        forall|i: int| 0 <= i < keys.len() ==> #[trigger] keys[i] !is Lexed,
    ensures
        query::serve_all(store, keys).names == store.names,
    decreases query::height(keys), 1nat, keys.len(),
{
    if keys.len() > 0 {
        let rest = keys.drop_first();
        lemma_names_are_found_by_lexing(store, keys[0]);
        assert forall|i: int| 0 <= i < rest.len() implies #[trigger] rest[i] !is Lexed by {
            assert(rest[i] == keys[i + 1]);
        }
        lemma_serving_finds_no_names(query::serve(store, keys[0]), rest);
    }
}

proof fn lemma_validating_finds_no_names(store: Store, deps: Seq<DepKey>, since: nat)
    requires
        forall|i: int| 0 <= i < deps.len() ==> #[trigger] deps[i] !is Lexed,
    ensures
        query::validate(store, deps, since).0.names == store.names,
    decreases query::height(deps), 1nat, deps.len(),
{
    if deps.len() > 0 {
        let rest = deps.drop_first();
        lemma_names_are_found_by_lexing(store, deps[0]);
        assert forall|i: int| 0 <= i < rest.len() implies #[trigger] rest[i] !is Lexed by {
            assert(rest[i] == deps[i + 1]);
        }
        lemma_validating_finds_no_names(query::serve(store, deps[0]), rest, since);
    }
}

/// What each query reads, at first or second hand.
pub proof fn lemma_what_queries_reach(file: FileId, other: DepKey)
    ensures
        !query::reaches(DepKey::SourceText(file), other),
        query::reaches(DepKey::TokenCount(file), other) <==> other == DepKey::SourceText(file),
        query::reaches(DepKey::Lexed(file), other) <==> other == DepKey::SourceText(file),
        query::reaches(DepKey::IsTrivial(file), other) <==> {
            other == DepKey::SourceText(file) || other == DepKey::TokenCount(file)
        },
        query::reaches(DepKey::Weight(file), other) <==> {
            ||| other == DepKey::SourceText(file)
            ||| other == DepKey::TokenCount(file)
            ||| other == DepKey::IsTrivial(file)
        },
{
    let text = DepKey::SourceText(file);
    let count = DepKey::TokenCount(file);
    let trivial = DepKey::IsTrivial(file);
    let weight = DepKey::Weight(file);
    assert(!query::reaches(text, other));
    assert(query::dependencies(count)[0] == text);
    assert(query::reaches(count, other) <==> other == text);
    assert(query::dependencies(DepKey::Lexed(file))[0] == text);
    assert(query::reaches(DepKey::Lexed(file), other) <==> other == text);
    assert(query::dependencies(trivial)[0] == count);
    assert(query::reaches(trivial, other) <==> other == text || other == count);
    assert(query::dependencies(weight)[0] == count);
    assert(query::dependencies(weight)[1] == trivial);
}

/// Where the memo can be used, checking it does not run its body.
proof fn lemma_nothing_run_in_check(store: Store, key: DepKey)
    requires
        query::coherent(store),
        key !is SourceText,
        store.inputs.contains_key(query::file_of(key)),
        query::check(store, key).1,
    ensures
        !computed(store, query::serve(store, key), key),
{
    let (checked, usable) = query::check(store, key);
    let later = query::serve(store, key);
    query::lemma_dependencies(key);
    query::lemma_check(store, key);
    if store.memos[key].verified_at == store.revision {
        lemma_warm(store, key);
        assert forall|i: int| store.log.len() <= i < later.log.len() implies #[trigger] later.log[i]
            != executed(key) by {}
    } else {
        assert(query::sound(store, key));
        lemma_validating_computes_once(
            store,
            query::dependencies(key),
            store.memos[key].verified_at,
        );
        if computed(store, later, key) {
            let i = choose|i: int|
                store.log.len() <= i < later.log.len() && #[trigger] later.log[i] == executed(key);
            assert(i < checked.log.len());
            assert(checked.log[i] == executed(key));
            assert(computed(store, checked, key));
            assert(query::current(checked, key));
        }
    }
}

/// A failed validation has found something that changed.
proof fn lemma_what_has_changed(store: Store, deps: Seq<DepKey>, since: nat) -> (dep: DepKey)
    requires
        query::coherent(store),
        forall|i: int|
            0 <= i < deps.len() ==> store.inputs.contains_key(
                query::file_of(#[trigger] deps[i]),
            ),
        !query::validate(store, deps, since).1,
    ensures
        deps.contains(dep),
        query::current(query::validate(store, deps, since).0, dep),
        query::validate(store, deps, since).0.changed_at(dep) > since,
    decreases deps.len(),
{
    let next = query::serve(store, deps[0]);
    let rest = deps.drop_first();
    assert(store.inputs.contains_key(query::file_of(deps[0])));
    query::lemma_serve(store, deps[0]);
    if next.changed_at(deps[0]) > since {
        deps[0]
    } else {
        assert forall|i: int| 0 <= i < rest.len() implies next.inputs.contains_key(
            query::file_of(#[trigger] rest[i]),
        ) by {
            assert(rest[i] == deps[i + 1]);
        }
        let dep = lemma_what_has_changed(next, rest, since);
        let i = choose|i: int| 0 <= i < rest.len() && #[trigger] rest[i] == dep;
        assert(deps[i + 1] == dep);
        dep
    }
}

/// The log calls no two keys by the same name.
pub proof fn lemma_titles_are_distinct(a: DepKey, b: DepKey)
    ensures
        query::title(a) == query::title(b) <==> a == b,
{
    reveal_strlit("source_text(");
    reveal_strlit("token_count(");
    reveal_strlit("is_trivial(");
    reveal_strlit("weight(");
    reveal_strlit("lexed(");
    reveal_strlit(")");
    if query::title(a) == query::title(b) {
        assert(query::title(a)[0] == query::title(b)[0]);
        let da = text::decimal(query::file_of(a).0 as nat);
        let db = text::decimal(query::file_of(b).0 as nat);
        let n = query::title(a).len() - da.len() - 1;
        assert(query::title(a).subrange(n, query::title(a).len() - 1) =~= da);
        assert(query::title(b).subrange(n, query::title(b).len() - 1) =~= db);
        text::lemma_decimal_injective(query::file_of(a).0 as nat, query::file_of(b).0 as nat);
    }
}

/// A query that is up to date is answered from its memo, and nothing else
/// happens.
pub proof fn lemma_warm(store: Store, key: DepKey)
    requires
        key !is SourceText,
        query::current(store, key),
    ensures
        query::serve(store, key) == store.note(reused(key)),
{
    let record = store.memos[key];
    assert(store.memos.insert(key, Record { verified_at: store.revision, ..record })
        =~= store.memos);
}

/// A query that has just been served is answered from its memo, and so is
/// everything that was served before it: a graph shaped like a diamond is not
/// walked twice.
pub proof fn lemma_second_call_reuses(store: Store, key: DepKey, again: DepKey)
    requires
        query::coherent(store),
        store.inputs.contains_key(query::file_of(key)),
        again !is SourceText,
        again == key || query::current(store, again),
    ensures
        query::serve(query::serve(store, key), again) == query::serve(store, key).note(
            reused(again),
        ),
{
    query::lemma_serve(store, key);
    lemma_warm(query::serve(store, key), again);
}

/// A query on the text alone that was never served is computed.
pub proof fn lemma_first_call_executes(store: Store, key: DepKey)
    requires
        key is TokenCount || key is Lexed,
        !store.memos.contains_key(key),
    ensures
        query::serve(store, key).log == store.log.push(executed(key)),
{
    query::lemma_serve_dependencies(store.note(executed(key)), key);
}

/// Writing a text has the queries on that text computed anew, even where the
/// text is the same as before: nothing short of computing them can tell.
pub proof fn lemma_a_write_forces_execution(
    store: Store,
    file: FileId,
    source: Seq<char>,
    key: DepKey,
)
    requires
        query::coherent(store),
        key == DepKey::TokenCount(file) || key == DepKey::Lexed(file),
    ensures
        query::serve(store.write(file, source), key).log == store.log.push(executed(key)),
{
    let written = store.write(file, source);
    if store.memos.contains_key(key) {
        assert(query::sound(store, key));
    }
    query::lemma_validate_input(written, key);
    assert(query::check(written, key) == (written, false));
    query::lemma_serve_dependencies(written.note(executed(key)), key);
}

/// Computing the same answer as before is not a change: the memo keeps the
/// revision of the last one.
pub proof fn lemma_backdating(store: Store, key: DepKey)
    requires
        query::coherent(store),
        store.inputs.contains_key(query::file_of(key)),
        store.memos.contains_key(key),
    ensures
        ({
            let before = store.memos[key];
            let after = query::serve(store, key).memos[key];
            after.changed_at == if after.answer == before.answer {
                before.changed_at
            } else {
                store.revision
            }
        }),
{
    assert(query::sound(store, key));
    query::lemma_dependencies(key);
    query::lemma_check(store, key);
    let (checked, usable) = query::check(store, key);
    if !usable {
        let started = checked.note(executed(key));
        if query::reaches(key, key) {
            query::lemma_reaches_down(key, key);
        }
        query::lemma_not_reached(key, key);
        query::lemma_serve_all_touches(started, query::dependencies(key), key);
        assert forall|i: int| 0 <= i < query::dependencies(key).len() implies started.inputs
            .contains_key(query::file_of(#[trigger] query::dependencies(key)[i])) by {}
        query::lemma_note(checked, executed(key));
        query::lemma_serve_all(started, query::dependencies(key));
    }
}

/// Serving a query leaves the memos of other files alone.
pub proof fn lemma_files_are_independent(store: Store, key: DepKey, other: DepKey)
    requires
        query::file_of(other) != query::file_of(key),
    ensures
        query::untouched(store, query::serve(store, key), other),
        query::serve(store, key).memos.contains_key(other) <==> store.memos.contains_key(other),
        store.memos.contains_key(other) ==> query::serve(store, key).memos[other]
            == store.memos[other],
{
    if query::reaches(key, other) {
        query::lemma_reaches_down(key, other);
    }
    query::lemma_serve_touches(store, key, other);
}

/// The recorded dependencies are all that an answer depends on: where the texts
/// and answers that they lead to are the same, so is the answer. Lexing also
/// depends on the names already known.
pub proof fn lemma_answers_depend_on_recorded_reads(a: Store, b: Store, key: DepKey)
    requires
        key is Lexed ==> a.names == b.names,
        forall|i: int|
            0 <= i < query::dependencies(key).len() ==> match #[trigger] query::dependencies(
                key,
            )[i] {
                DepKey::SourceText(file) => a.inputs[file].text == b.inputs[file].text,
                dep => a.memos[dep].answer == b.memos[dep].answer,
            },
    ensures
        a.computed(key) == b.computed(key),
{
    match key {
        DepKey::SourceText(_) => {},
        DepKey::TokenCount(file) | DepKey::Lexed(file) => {
            assert(query::dependencies(key)[0] == DepKey::SourceText(file));
        },
        DepKey::IsTrivial(file) => {
            assert(query::dependencies(key)[0] == DepKey::TokenCount(file));
        },
        DepKey::Weight(file) => {
            assert(query::dependencies(key)[0] == DepKey::TokenCount(file));
            assert(query::dependencies(key)[1] == DepKey::IsTrivial(file));
        },
    }
}

/// `later` differs from `store` in nothing but how recently memos were
/// confirmed, and in a log that says that memos were used.
pub open spec fn only_confirmed(store: Store, later: Store) -> bool {
    &&& later.revision == store.revision
    &&& later.inputs == store.inputs
    &&& later.names == store.names
    &&& later.memos.dom() == store.memos.dom()
    &&& forall|key: DepKey| #[trigger]
        store.memos.contains_key(key) ==> {
            let record = store.memos[key];
            &&& later.memos[key] == (Record {
                verified_at: later.memos[key].verified_at,
                ..record
            })
            &&& record.verified_at <= later.memos[key].verified_at
        }
    &&& store.log.is_prefix_of(later.log)
    &&& forall|i: int| store.log.len() <= i < later.log.len() ==> #[trigger] later.log[i] is Reused
}

/// Nothing that `key` reads, at any remove, has changed since it was confirmed.
pub open spec fn green(store: Store, key: DepKey) -> bool
    decreases query::rank(key),
{
    proof {
        query::lemma_dependencies(key);
    }
    key is SourceText || (store.memos.contains_key(key) && forall|i: int|
        0 <= i < query::dependencies(key).len() ==> {
            let dep = #[trigger] query::dependencies(key)[i];
            store.changed_at(dep) <= store.memos[key].verified_at && green(store, dep)
        })
}

proof fn lemma_only_confirmed(a: Store, b: Store, c: Store)
    requires
        only_confirmed(a, b),
        only_confirmed(b, c),
    ensures
        only_confirmed(a, c),
{
    assert forall|key: DepKey| #[trigger] a.memos.contains_key(key) implies {
        let record = a.memos[key];
        &&& c.memos[key] == (Record { verified_at: c.memos[key].verified_at, ..record })
        &&& record.verified_at <= c.memos[key].verified_at
    } by {
        assert(b.memos.contains_key(key));
    }
    assert forall|i: int| a.log.len() <= i < c.log.len() implies #[trigger] c.log[i] is Reused by {
        if i < b.log.len() {
            assert(c.log[i] == b.log[i]);
        }
    }
}

/// Confirming memos leaves green what is green.
proof fn lemma_green_stays(store: Store, later: Store, key: DepKey)
    requires
        only_confirmed(store, later),
        green(store, key),
    ensures
        green(later, key),
        later.changed_at(key) == store.changed_at(key),
    decreases query::rank(key),
{
    query::lemma_dependencies(key);
    if key !is SourceText {
        assert forall|i: int| 0 <= i < query::dependencies(key).len() implies ({
            let dep = #[trigger] query::dependencies(key)[i];
            later.changed_at(dep) <= later.memos[key].verified_at && green(later, dep)
        }) by {
            lemma_green_stays(store, later, query::dependencies(key)[i]);
        }
    }
}

/// Serving a query of which nothing has changed runs no body at all.
pub proof fn lemma_green_runs_nothing(store: Store, key: DepKey)
    requires
        query::coherent(store),
        green(store, key),
    ensures
        only_confirmed(store, query::serve(store, key)),
    decreases query::rank(key), 1nat, 0nat,
{
    query::lemma_dependencies(key);
    if key !is SourceText {
        assert(query::sound(store, key));
        let since = store.memos[key].verified_at;
        if since != store.revision {
            lemma_green_validates(store, query::dependencies(key), since);
        }
        let checked = query::check(store, key).0;
        let later = query::serve(store, key);
        assert(later.memos.dom() =~= store.memos.dom());
    }
}

/// Validating against dependencies of which nothing has changed succeeds, and
/// runs no body at all.
proof fn lemma_green_validates(store: Store, deps: Seq<DepKey>, since: nat)
    requires
        query::coherent(store),
        forall|i: int|
            0 <= i < deps.len() ==> {
                let dep = #[trigger] deps[i];
                &&& store.inputs.contains_key(query::file_of(dep))
                &&& green(store, dep)
                &&& store.changed_at(dep) <= since
            },
    ensures
        query::validate(store, deps, since).1,
        only_confirmed(store, query::validate(store, deps, since).0),
    decreases query::height(deps), 0nat, deps.len(),
{
    if deps.len() > 0 {
        let next = query::serve(store, deps[0]);
        let rest = deps.drop_first();
        query::lemma_height(deps, 0);
        assert(green(store, deps[0]));
        lemma_green_runs_nothing(store, deps[0]);
        lemma_green_stays(store, next, deps[0]);
        query::lemma_serve(store, deps[0]);
        assert forall|i: int| 0 <= i < rest.len() implies ({
            let dep = #[trigger] rest[i];
            &&& next.inputs.contains_key(query::file_of(dep))
            &&& green(next, dep)
            &&& next.changed_at(dep) <= since
        }) by {
            assert(rest[i] == deps[i + 1]);
            lemma_green_stays(store, next, deps[i + 1]);
        }
        lemma_green_validates(next, rest, since);
        lemma_only_confirmed(store, next, query::validate(next, rest, since).0);
    }
}

/// What is up to date is green, and stays so when another file is written.
pub proof fn lemma_current_is_green(store: Store, key: DepKey, file: FileId, source: Seq<char>)
    requires
        query::coherent(store),
        query::current(store, key),
        store.inputs.contains_key(query::file_of(key)),
        query::file_of(key) != file,
    ensures
        green(store, key),
        green(store.write(file, source), key),
    decreases query::rank(key),
{
    let written = store.write(file, source);
    query::lemma_dependencies(key);
    if key !is SourceText {
        assert(query::sound(store, key));
        query::lemma_current_agrees(store, key);
        assert forall|i: int| 0 <= i < query::dependencies(key).len() implies ({
            let dep = #[trigger] query::dependencies(key)[i];
            &&& store.changed_at(dep) <= store.memos[key].verified_at
            &&& written.changed_at(dep) == store.changed_at(dep)
            &&& green(store, dep)
            &&& green(written, dep)
        }) by {
            let dep = query::dependencies(key)[i];
            lemma_current_is_green(store, dep, file, source);
            if dep !is SourceText {
                assert(query::sound(store, dep));
            }
        }
    }
}

/// Writing one file runs no body for another: a query is disturbed only by the
/// inputs it has read.
pub proof fn lemma_unrelated_write_runs_nothing(
    store: Store,
    file: FileId,
    source: Seq<char>,
    key: DepKey,
)
    requires
        query::coherent(store),
        query::current(store, key),
        store.inputs.contains_key(query::file_of(key)),
        query::file_of(key) != file,
    ensures
        only_confirmed(
            store.write(file, source),
            query::serve(store.write(file, source), key),
        ),
{
    query::lemma_write(store, file, source);
    lemma_current_is_green(store, key, file, source);
    lemma_green_runs_nothing(store.write(file, source), key);
}

/// Served from nothing, the weight of a file has each of the three queries
/// computed once.
pub proof fn lemma_cold_graph(store: Store, file: FileId)
    requires
        !store.memos.contains_key(DepKey::TokenCount(file)),
        !store.memos.contains_key(DepKey::IsTrivial(file)),
        !store.memos.contains_key(DepKey::Weight(file)),
    ensures
        query::serve(store, DepKey::Weight(file)).log == store.log + seq![
            executed(DepKey::Weight(file)),
            executed(DepKey::TokenCount(file)),
            executed(DepKey::IsTrivial(file)),
            reused(DepKey::TokenCount(file)),
        ],
{
    let count = DepKey::TokenCount(file);
    let trivial = DepKey::IsTrivial(file);
    let weight = DepKey::Weight(file);
    let started = store.note(executed(weight));
    query::lemma_serve_dependencies(started, weight);
    query::lemma_serve_dependencies(started.note(executed(count)), count);
    let counted = query::serve(started, count);
    assert(counted.log == started.log.push(executed(count)));
    let restarted = counted.note(executed(trivial));
    query::lemma_serve_dependencies(restarted, trivial);
    lemma_warm(restarted, count);
    assert(query::serve(store, weight).log =~= store.log + seq![
        executed(weight),
        executed(count),
        executed(trivial),
        reused(count),
    ]);
}

/// A write that leaves the number of tokens as it was, such as writing the same
/// text again, is felt by the token count alone. Two derived levels stay green.
pub proof fn lemma_same_count_stops_at_the_first_query(
    store: Store,
    file: FileId,
    source: Seq<char>,
)
    requires
        query::coherent(store),
        query::current(store, DepKey::Weight(file)),
        text::words(source) == text::words(store.inputs[file].text),
    ensures
        query::serve(store.write(file, source), DepKey::Weight(file)).log == store.log + seq![
            executed(DepKey::TokenCount(file)),
            reused(DepKey::TokenCount(file)),
            reused(DepKey::IsTrivial(file)),
            reused(DepKey::Weight(file)),
        ],
{
    let count = DepKey::TokenCount(file);
    let trivial = DepKey::IsTrivial(file);
    let weight = DepKey::Weight(file);
    let written = store.write(file, source);
    lemma_weight_is_current(store, file);
    query::lemma_write(store, file, source);
    query::lemma_current_is_right(store, count);
    // The count is computed, and comes out the same.
    let counted = query::serve(written, count);
    lemma_a_write_forces_execution(store, file, source, count);
    query::lemma_serve(written, count);
    query::lemma_serve_answers(written, count);
    lemma_backdating(written, count);
    lemma_count_touches_nothing_else(written, file);
    // So whether the file is trivial stands.
    let flagged = query::serve(counted, trivial);
    lemma_warm(counted, count);
    query::lemma_dependencies(trivial);
    assert(query::dependencies(trivial)[0] == count);
    let since = counted.memos[trivial].verified_at;
    let rest = query::dependencies(trivial).drop_first();
    assert(query::validate(counted.note(reused(count)), rest, since) == (
        counted.note(reused(count)),
        true,
    ));
    assert(query::check(counted, trivial) == (counted.note(reused(count)), true));
    // And so does the weight.
    assert(query::dependencies(weight)[0] == count);
    assert(query::dependencies(weight).drop_first() =~= seq![trivial]);
    let since = written.memos[weight].verified_at;
    assert(seq![trivial].drop_first() =~= Seq::<DepKey>::empty());
    assert(query::validate(flagged, seq![trivial].drop_first(), since) == (flagged, true));
    assert(query::validate(counted, seq![trivial], since) == (flagged, true));
    assert(query::validate(written, query::dependencies(weight), since) == (flagged, true));
    assert(query::check(written, weight) == (flagged, true));
    assert(query::serve(written, weight).log =~= store.log + seq![
        executed(count),
        reused(count),
        reused(trivial),
        reused(weight),
    ]);
}

/// Where the weight is up to date, so is what it reads.
proof fn lemma_weight_is_current(store: Store, file: FileId)
    requires
        query::coherent(store),
        query::current(store, DepKey::Weight(file)),
    ensures
        query::sound(store, DepKey::Weight(file)),
        query::sound(store, DepKey::IsTrivial(file)),
        query::sound(store, DepKey::TokenCount(file)),
        query::current(store, DepKey::IsTrivial(file)),
        query::current(store, DepKey::TokenCount(file)),
{
    let weight = DepKey::Weight(file);
    query::lemma_current_agrees(store, weight);
    assert(query::dependencies(weight)[0] == DepKey::TokenCount(file));
    assert(query::dependencies(weight)[1] == DepKey::IsTrivial(file));
}

/// Counting tokens leaves the memos of what reads the count alone.
proof fn lemma_count_touches_nothing_else(store: Store, file: FileId)
    ensures
        query::untouched(
            store,
            query::serve(store, DepKey::TokenCount(file)),
            DepKey::IsTrivial(file),
        ),
        query::untouched(
            store,
            query::serve(store, DepKey::TokenCount(file)),
            DepKey::Weight(file),
        ),
{
    let count = DepKey::TokenCount(file);
    if query::reaches(count, DepKey::IsTrivial(file)) {
        query::lemma_reaches_down(count, DepKey::IsTrivial(file));
    }
    if query::reaches(count, DepKey::Weight(file)) {
        query::lemma_reaches_down(count, DepKey::Weight(file));
    }
    query::lemma_serve_touches(store, count, DepKey::IsTrivial(file));
    query::lemma_serve_touches(store, count, DepKey::Weight(file));
}

/// A write that changes the number of tokens has all three queries computed
/// again.
pub proof fn lemma_changed_count_propagates(store: Store, file: FileId, source: Seq<char>)
    requires
        query::coherent(store),
        query::current(store, DepKey::Weight(file)),
        text::words(source) != text::words(store.inputs[file].text),
    ensures
        query::serve(store.write(file, source), DepKey::Weight(file)).log == store.log + seq![
            executed(DepKey::TokenCount(file)),
            executed(DepKey::Weight(file)),
            reused(DepKey::TokenCount(file)),
            reused(DepKey::TokenCount(file)),
            executed(DepKey::IsTrivial(file)),
            reused(DepKey::TokenCount(file)),
        ],
{
    let count = DepKey::TokenCount(file);
    let trivial = DepKey::IsTrivial(file);
    let weight = DepKey::Weight(file);
    let written = store.write(file, source);
    lemma_weight_is_current(store, file);
    query::lemma_write(store, file, source);
    query::lemma_current_is_right(store, count);
    // The count is computed, and comes out different.
    let counted = query::serve(written, count);
    lemma_a_write_forces_execution(store, file, source, count);
    query::lemma_serve(written, count);
    query::lemma_serve_answers(written, count);
    lemma_backdating(written, count);
    lemma_count_touches_nothing_else(written, file);
    assert(query::dependencies(weight)[0] == count);
    assert(query::check(written, weight) == (counted, false));
    // So the weight is computed, which asks for the count again,
    let started = counted.note(executed(weight));
    query::lemma_serve_dependencies(started, weight);
    lemma_warm(started, count);
    let asked = started.note(reused(count));
    // and whether the file is trivial has to be computed too.
    lemma_warm(asked, count);
    assert(query::dependencies(trivial)[0] == count);
    let checked = asked.note(reused(count));
    assert(query::check(asked, trivial) == (checked, false));
    let restarted = checked.note(executed(trivial));
    query::lemma_serve_dependencies(restarted, trivial);
    lemma_warm(restarted, count);
    assert(query::serve(written, weight).log =~= store.log + seq![
        executed(count),
        executed(weight),
        reused(count),
        reused(count),
        executed(trivial),
        reused(count),
    ]);
}

/// Writing the same text again has it lexed again, but the tokens are the same,
/// and so is the revision at which they last changed.
pub proof fn lemma_same_text_relexes_but_backdates(store: Store, file: FileId)
    requires
        query::coherent(store),
        query::current(store, DepKey::Lexed(file)),
    ensures
        ({
            let key = DepKey::Lexed(file);
            let later = query::serve(store.write(file, store.inputs[file].text), key);
            &&& later.log == store.log.push(executed(key))
            &&& later.memos[key].answer == store.memos[key].answer
            &&& later.memos[key].changed_at == store.memos[key].changed_at
            &&& later.names == store.names
        }),
{
    let key = DepKey::Lexed(file);
    let source = store.inputs[file].text;
    let written = store.write(file, source);
    assert(query::sound(store, key));
    query::lemma_write(store, file, source);
    query::lemma_current_is_right(store, key);
    lemma_a_write_forces_execution(store, file, source, key);
    query::lemma_serve_answers(written, key);
    lemma_backdating(written, key);
}

/// Interning attaches itself to no query: outside lexing, it makes no difference
/// whether a name is interned before or after a query is served.
pub proof fn lemma_interning_disturbs_nothing(store: Store, name: Seq<char>, key: DepKey)
    requires
        key !is Lexed,
    ensures
        query::serve(store.intern(name), key) == query::serve(store, key).intern(name),
    decreases query::rank(key), 1nat, 0nat,
{
    query::lemma_dependencies(key);
    if key !is SourceText {
        let deps = query::dependencies(key);
        let other = store.intern(name);
        if store.memos.contains_key(key) && store.memos[key].verified_at != store.revision {
            lemma_interning_and_validating(store, name, deps, store.memos[key].verified_at);
        }
        let (checked, usable) = query::check(store, key);
        assert(query::check(other, key) == (checked.intern(name), usable));
        if !usable {
            let started = checked.note(executed(key));
            assert(checked.intern(name).note(executed(key)) == started.intern(name));
            lemma_interning_and_serving(started, name, deps);
            query::lemma_serve_all_names(started, deps);
            let ready = query::serve_all(started, deps);
            assert(ready.intern(name).remember(key) == ready.remember(key).intern(name));
        }
    }
}

proof fn lemma_interning_and_serving(store: Store, name: Seq<char>, keys: Seq<DepKey>)
    requires
        forall|i: int| 0 <= i < keys.len() ==> #[trigger] keys[i] !is Lexed,
    ensures
        query::serve_all(store.intern(name), keys) == query::serve_all(store, keys).intern(name),
    decreases query::height(keys), 0nat, keys.len(),
{
    if keys.len() > 0 {
        let rest = keys.drop_first();
        query::lemma_height(keys, 0);
        assert(keys[0] !is Lexed);
        lemma_interning_disturbs_nothing(store, name, keys[0]);
        assert forall|i: int| 0 <= i < rest.len() implies #[trigger] rest[i] !is Lexed by {
            assert(rest[i] == keys[i + 1]);
        }
        lemma_interning_and_serving(query::serve(store, keys[0]), name, rest);
    }
}

proof fn lemma_interning_and_validating(
    store: Store,
    name: Seq<char>,
    deps: Seq<DepKey>,
    since: nat,
)
    requires
        forall|i: int| 0 <= i < deps.len() ==> #[trigger] deps[i] !is Lexed,
    ensures
        query::validate(store.intern(name), deps, since) == (
            query::validate(store, deps, since).0.intern(name),
            query::validate(store, deps, since).1,
        ),
    decreases query::height(deps), 0nat, deps.len(),
{
    if deps.len() > 0 {
        let rest = deps.drop_first();
        query::lemma_height(deps, 0);
        assert(deps[0] !is Lexed);
        lemma_interning_disturbs_nothing(store, name, deps[0]);
        assert forall|i: int| 0 <= i < rest.len() implies #[trigger] rest[i] !is Lexed by {
            assert(rest[i] == deps[i + 1]);
        }
        let next = query::serve(store, deps[0]);
        assert(next.intern(name).changed_at(deps[0]) == next.changed_at(deps[0]));
        lemma_interning_and_validating(next, name, rest, since);
    }
}

/// The log says that `key` was computed between `store` and `later`.
pub open spec fn computed(store: Store, later: Store, key: DepKey) -> bool {
    exists|i: int|
        store.log.len() <= i < later.log.len() && #[trigger] later.log[i] == executed(key)
}

/// Between `store` and `later` no query was computed twice, nor one that was up to
/// date before; and what was computed is up to date afterwards.
pub open spec fn computed_once(store: Store, later: Store) -> bool {
    &&& store.log.is_prefix_of(later.log)
    &&& forall|i: int, j: int|
        store.log.len() <= i < j < later.log.len() && (#[trigger] later.log[i]) is Executed
            ==> later.log[i] != #[trigger] later.log[j]
    &&& forall|i: int|
        store.log.len() <= i < later.log.len() && (#[trigger] later.log[i]) is Executed
            ==> exists|key: DepKey| later.log[i] == #[trigger] executed(key)
    &&& forall|key: DepKey| #[trigger]
        computed(store, later, key) ==> {
            &&& key !is SourceText
            &&& !query::current(store, key)
            &&& query::current(later, key)
        }
}

/// One stretch after the other.
proof fn lemma_computed_once(a: Store, b: Store, c: Store)
    requires
        computed_once(a, b),
        computed_once(b, c),
        query::follows(a, b),
        query::follows(b, c),
    ensures
        computed_once(a, c),
{
    assert forall|i: int| b.log.len() <= i < c.log.len() && (
    #[trigger] c.log[i]) is Executed implies exists|key: DepKey|
        c.log[i] == #[trigger] executed(key) && computed(b, c, key) by {
        let key = choose|key: DepKey| c.log[i] == #[trigger] executed(key);
        assert(computed(b, c, key));
    }
    assert forall|i: int| a.log.len() <= i < b.log.len() implies #[trigger] c.log[i]
        == b.log[i] by {}
    assert forall|i: int| a.log.len() <= i < b.log.len() && (
    #[trigger] c.log[i]) is Executed implies exists|key: DepKey|
        c.log[i] == #[trigger] executed(key) && computed(a, b, key) by {
        assert(c.log[i] == b.log[i]);
        let key = choose|key: DepKey| b.log[i] == #[trigger] executed(key);
        assert(computed(a, b, key));
    }
    assert forall|key: DepKey| #[trigger] computed(a, c, key) implies computed(a, b, key)
        || computed(b, c, key) by {
        let i = choose|i: int|
            a.log.len() <= i < c.log.len() && #[trigger] c.log[i] == executed(key);
        if i < b.log.len() {
            assert(b.log[i] == executed(key));
        }
    }
    assert forall|i: int, j: int|
        a.log.len() <= i < j < c.log.len() && (#[trigger] c.log[i]) is Executed implies c.log[i]
        != #[trigger] c.log[j] by {
        if j < b.log.len() {
            assert(c.log[i] == b.log[i]);
            assert(c.log[j] == b.log[j]);
        } else if i < b.log.len() {
            let key = choose|key: DepKey|
                c.log[i] == #[trigger] executed(key) && computed(a, b, key);
            if c.log[j] == executed(key) {
                assert(computed(b, c, key));
            }
        }
    }
    assert forall|key: DepKey| #[trigger] computed(a, c, key) implies {
        &&& key !is SourceText
        &&& !query::current(a, key)
        &&& query::current(c, key)
    } by {
        if computed(a, b, key) {
            assert(query::current(b, key));
        } else {
            assert(computed(b, c, key));
        }
    }
}

/// Nothing is logged but that memos were used.
proof fn lemma_nothing_computed(store: Store, later: Store)
    requires
        store.log.is_prefix_of(later.log),
        forall|i: int|
            store.log.len() <= i < later.log.len() ==> #[trigger] later.log[i] is Reused,
    ensures
        computed_once(store, later),
{
}

/// Between two writes no query is computed twice. In the course of one call no
/// query is computed that was up to date, each that is computed is computed once,
/// and it is up to date afterwards.
pub proof fn lemma_a_call_computes_once(store: Store, key: DepKey)
    requires
        query::coherent(store),
        store.inputs.contains_key(query::file_of(key)),
    ensures
        computed_once(store, query::serve(store, key)),
    decreases query::rank(key), 1nat, 0nat,
{
    query::lemma_dependencies(key);
    if key is SourceText {
        lemma_nothing_computed(store, store);
    } else {
        let deps = query::dependencies(key);
        let (checked, usable) = query::check(store, key);
        query::lemma_check(store, key);
        if store.memos.contains_key(key) && store.memos[key].verified_at != store.revision {
            assert(query::sound(store, key));
            lemma_validating_computes_once(store, deps, store.memos[key].verified_at);
        } else {
            lemma_nothing_computed(store, store);
        }
        let later = query::serve(store, key);
        query::lemma_serve(store, key);
        if usable {
            query::lemma_confirm(checked, key);
            lemma_nothing_computed(checked, later);
            query::lemma_note(checked.confirm(key), reused(key));
            query::lemma_follows(checked, checked.confirm(key), later);
            lemma_computed_once(store, checked, later);
        } else {
            let started = checked.note(executed(key));
            let ready = query::serve_all(started, deps);
            query::lemma_note(checked, executed(key));
            lemma_calls_compute_once(started, deps);
            query::lemma_serve_all(started, deps);
            if query::reaches(key, key) {
                query::lemma_reaches_down(key, key);
            }
            query::lemma_not_reached(key, key);
            query::lemma_serve_all_touches(started, deps, key);
            query::lemma_remember(ready, key);
            query::lemma_follows(checked, started, ready);
            lemma_executing_computes_once(checked, key, ready);
            query::lemma_follows(checked, ready, later);
            lemma_computed_once(store, checked, later);
        }
    }
}

/// Running a body, once what it reads has been served without computing it.
proof fn lemma_executing_computes_once(checked: Store, key: DepKey, ready: Store)
    requires
        key !is SourceText,
        !query::current(checked, key),
        !query::current(ready, key),
        computed_once(checked.note(executed(key)), ready),
        query::follows(checked.note(executed(key)), ready),
        query::follows(ready, ready.remember(key)),
        query::current(ready.remember(key), key),
    ensures
        computed_once(checked, ready.remember(key)),
{
    let started = checked.note(executed(key));
    let later = ready.remember(key);
    let here = checked.log.len() as int;
    assert(later.log[here] == started.log[here]);
    assert forall|other: DepKey| #[trigger] computed(checked, later, other) implies other == key
        || computed(started, ready, other) by {
        let i = choose|i: int|
            checked.log.len() <= i < later.log.len() && #[trigger] later.log[i] == executed(
                other,
            );
        if i == here {
            lemma_titles_are_distinct(other, key);
        } else {
            assert(ready.log[i] == executed(other));
        }
    }
    assert forall|i: int, j: int|
        checked.log.len() <= i < j < later.log.len() && (
        #[trigger] later.log[i]) is Executed implies later.log[i] != #[trigger] later.log[j] by {
        if i == here {
            if ready.log[j] == executed(key) {
                assert(computed(started, ready, key));
            }
        } else {
            assert(ready.log[i] != ready.log[j]);
        }
    }
    assert forall|i: int|
        checked.log.len() <= i < later.log.len() && (
        #[trigger] later.log[i]) is Executed implies exists|other: DepKey|
        later.log[i] == #[trigger] executed(other) by {
        if i == here {
            assert(later.log[i] == executed(key));
        } else {
            assert(ready.log[i] is Executed);
        }
    }
    assert forall|other: DepKey| #[trigger] computed(checked, later, other) implies {
        &&& other !is SourceText
        &&& !query::current(checked, other)
        &&& query::current(later, other)
    } by {
        if other != key {
            assert(computed(started, ready, other));
        }
    }
}

/// The same over any sequence of calls, whichever queries are asked for and
/// however often: between two writes no query is computed twice.
pub proof fn lemma_calls_compute_once(store: Store, keys: Seq<DepKey>)
    requires
        query::coherent(store),
        forall|i: int|
            0 <= i < keys.len() ==> store.inputs.contains_key(
                query::file_of(#[trigger] keys[i]),
            ),
    ensures
        computed_once(store, query::serve_all(store, keys)),
    decreases query::height(keys), 0nat, keys.len(),
{
    if keys.len() > 0 {
        let next = query::serve(store, keys[0]);
        let rest = keys.drop_first();
        query::lemma_height(keys, 0);
        assert(store.inputs.contains_key(query::file_of(keys[0])));
        lemma_a_call_computes_once(store, keys[0]);
        query::lemma_serve(store, keys[0]);
        assert forall|i: int| 0 <= i < rest.len() implies next.inputs.contains_key(
            query::file_of(#[trigger] rest[i]),
        ) by {
            assert(rest[i] == keys[i + 1]);
        }
        lemma_calls_compute_once(next, rest);
        query::lemma_serve_all(next, rest);
        lemma_computed_once(store, next, query::serve_all(next, rest));
    } else {
        lemma_nothing_computed(store, store);
    }
}

proof fn lemma_validating_computes_once(store: Store, deps: Seq<DepKey>, since: nat)
    requires
        query::coherent(store),
        forall|i: int|
            0 <= i < deps.len() ==> store.inputs.contains_key(
                query::file_of(#[trigger] deps[i]),
            ),
    ensures
        computed_once(store, query::validate(store, deps, since).0),
    decreases query::height(deps), 0nat, deps.len(),
{
    if deps.len() > 0 {
        let next = query::serve(store, deps[0]);
        let rest = deps.drop_first();
        query::lemma_height(deps, 0);
        assert(store.inputs.contains_key(query::file_of(deps[0])));
        lemma_a_call_computes_once(store, deps[0]);
        query::lemma_serve(store, deps[0]);
        assert forall|i: int| 0 <= i < rest.len() implies next.inputs.contains_key(
            query::file_of(#[trigger] rest[i]),
        ) by {
            assert(rest[i] == deps[i + 1]);
        }
        lemma_validating_computes_once(next, rest, since);
        query::lemma_validate(next, rest, since);
        lemma_computed_once(store, next, query::validate(next, rest, since).0);
    } else {
        lemma_nothing_computed(store, store);
    }
}

/// The store with another log.
pub open spec fn relogged(store: Store, log: Seq<Happening>) -> Store {
    Store { log, ..store }
}

/// `other` comes of `relogged(store, log)` as `later` comes of `store`: what was
/// added to the log is the same, and so is everything else.
pub open spec fn in_step(
    store: Store,
    later: Store,
    log: Seq<Happening>,
    other: Store,
) -> bool {
    &&& store.log.is_prefix_of(later.log)
    &&& other == relogged(later, log + later.log.skip(store.log.len() as int))
}

proof fn lemma_in_step(
    a: Store,
    b: Store,
    c: Store,
    log: Seq<Happening>,
    other: Store,
    last: Store,
)
    requires
        in_step(a, b, log, other),
        in_step(b, c, other.log, last),
    ensures
        in_step(a, c, log, last),
{
    let n = a.log.len() as int;
    let m = b.log.len() as int;
    assert(log + b.log.skip(n) + c.log.skip(m) =~= log + c.log.skip(n));
}

/// The log is written and never read: whatever it holds, a query is served in the
/// same way, has the same answer and adds the same to the log. So draining the log
/// changes no later answer and no later event.
pub proof fn lemma_the_log_is_never_read(store: Store, log: Seq<Happening>, key: DepKey)
    ensures
        in_step(store, query::serve(store, key), log, query::serve(relogged(store, log), key)),
    decreases query::rank(key), 1nat, 0nat,
{
    query::lemma_dependencies(key);
    let other = relogged(store, log);
    if key is SourceText {
        assert(log + store.log.skip(store.log.len() as int) =~= log);
    } else {
        let deps = query::dependencies(key);
        let (checked, usable) = query::check(store, key);
        let twin = query::check(other, key).0;
        if store.memos.contains_key(key) && store.memos[key].verified_at != store.revision {
            lemma_validating_ignores_the_log(store, log, deps, store.memos[key].verified_at);
        } else {
            assert(log + store.log.skip(store.log.len() as int) =~= log);
        }
        assert(in_step(store, checked, log, twin));
        assert(query::check(other, key).1 == usable);
        let later = query::serve(store, key);
        let last = query::serve(other, key);
        if usable {
            let noted = checked.log.push(reused(key)).skip(checked.log.len() as int);
            assert(noted =~= seq![reused(key)]);
            assert(twin.log.push(reused(key)) =~= twin.log + noted);
            assert(in_step(checked, later, twin.log, last));
        } else {
            let started = checked.note(executed(key));
            let restarted = twin.note(executed(key));
            let noted = checked.log.push(executed(key)).skip(checked.log.len() as int);
            assert(noted =~= seq![executed(key)]);
            assert(twin.log.push(executed(key)) =~= twin.log + noted);
            assert(in_step(checked, started, twin.log, restarted));
            assert(restarted == relogged(started, restarted.log));
            lemma_serving_ignores_the_log(started, restarted.log, deps);
            let ready = query::serve_all(started, deps);
            let set = query::serve_all(restarted, deps);
            lemma_in_step(checked, started, ready, twin.log, restarted, set);
            assert(set.computed(key) == ready.computed(key));
            assert(in_step(checked, later, twin.log, last));
        }
        lemma_in_step(store, checked, later, log, twin, last);
    }
}

/// The same over any sequence of calls.
pub proof fn lemma_serving_ignores_the_log(store: Store, log: Seq<Happening>, keys: Seq<DepKey>)
    ensures
        in_step(
            store,
            query::serve_all(store, keys),
            log,
            query::serve_all(relogged(store, log), keys),
        ),
    decreases query::height(keys), 0nat, keys.len(),
{
    if keys.len() > 0 {
        let rest = keys.drop_first();
        let next = query::serve(store, keys[0]);
        let twin = query::serve(relogged(store, log), keys[0]);
        query::lemma_height(keys, 0);
        lemma_the_log_is_never_read(store, log, keys[0]);
        assert(twin == relogged(next, twin.log));
        lemma_serving_ignores_the_log(next, twin.log, rest);
        lemma_in_step(
            store,
            next,
            query::serve_all(next, rest),
            log,
            twin,
            query::serve_all(twin, rest),
        );
    } else {
        assert(log + store.log.skip(store.log.len() as int) =~= log);
    }
}

proof fn lemma_validating_ignores_the_log(
    store: Store,
    log: Seq<Happening>,
    deps: Seq<DepKey>,
    since: nat,
)
    ensures
        in_step(
            store,
            query::validate(store, deps, since).0,
            log,
            query::validate(relogged(store, log), deps, since).0,
        ),
        query::validate(relogged(store, log), deps, since).1 == query::validate(
            store,
            deps,
            since,
        ).1,
    decreases query::height(deps), 0nat, deps.len(),
{
    if deps.len() > 0 {
        let rest = deps.drop_first();
        let next = query::serve(store, deps[0]);
        let twin = query::serve(relogged(store, log), deps[0]);
        query::lemma_height(deps, 0);
        lemma_the_log_is_never_read(store, log, deps[0]);
        assert(twin == relogged(next, twin.log));
        assert(twin.changed_at(deps[0]) == next.changed_at(deps[0]));
        lemma_validating_ignores_the_log(next, twin.log, rest, since);
        lemma_in_step(
            store,
            next,
            query::validate(next, rest, since).0,
            log,
            twin,
            query::validate(twin, rest, since).0,
        );
    } else {
        assert(log + store.log.skip(store.log.len() as int) =~= log);
    }
}

} // verus!
