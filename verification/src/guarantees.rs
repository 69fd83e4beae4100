//! What a run of the emitted method returns for the tree of a table.
//!
//! The statements speak of a table `options`, of the nodes `branches` that
//! `branchify` returns for it, and of `run`, the outcome on an input of the
//! method that is emitted for `branches`.

use crate::matcher::{arm_for, end_outcome, run, run_fallback, run_switch, OutcomeView, Rules};
use crate::method::{arms_from, ending_of, method_of, switch_of, Ending, Switch};
use crate::trie::{
    alternatives, entries_of, extends, fold_key, folded, has_duplicate, is_level, is_node,
    lemma_next_bytes_contains, lemma_prefix_step, lemma_value_at_some, next_bytes, upper, value_at,
    ParseBranch,
};
use vstd::prelude::*;
use vstd::string::*;

verus! {

/// Every key is in the form in which the tree files it.
pub open spec fn all_folded(entries: Seq<(Seq<u8>, Seq<char>)>, case_sensitive: bool) -> bool {
    forall|i: int, k: int|
        0 <= i < entries.len() && 0 <= k < entries[i].0.len() ==> folded(
            #[trigger] entries[i].0[k],
            case_sensitive,
        ) == entries[i].0[k]
}

/// What the end of a token returns at `path`, reached by the bytes `text`.
pub open spec fn outcome_at(
    entries: Seq<(Seq<u8>, Seq<char>)>,
    path: Seq<u8>,
    text: Seq<u8>,
) -> OutcomeView {
    match value_at(entries, path) {
        Some(value) => OutcomeView::Known(value),
        None => OutcomeView::Unknown(text),
    }
}

/// The keys of a table's entries are folded.
pub proof fn lemma_entries_are_folded(options: Seq<(&str, &str)>, case_sensitive: bool)
    ensures
        all_folded(entries_of(options, case_sensitive), case_sensitive),
{
}

/// A node takes exactly the bytes that are filed under its first byte.
pub proof fn lemma_alternatives_take(first: u8, b: u8, case_sensitive: bool)
    requires
        folded(first, case_sensitive) == first,
    ensures
        alternatives(first, case_sensitive).contains(b) <==> folded(b, case_sensitive) == first,
{
    let alts = alternatives(first, case_sensitive);
    if folded(b, case_sensitive) == first {
        if b == first {
            assert(alts[0] == b);
        } else {
            assert(alts.len() == 2 && alts[1] == b);
        }
    }
}

/// The first of `nodes`, from `from` on, that takes `b`.
pub open spec fn node_for(nodes: Seq<ParseBranch>, b: u8, from: int) -> Option<int>
    decreases nodes.len() - from,
{
    if from < 0 || from >= nodes.len() {
        None
    } else if nodes[from].matches@.contains(b) {
        Some(from)
    } else {
        node_for(nodes, b, from + 1)
    }
}

/// The `match` with the arms of `nodes` and the ending `on_end`.
pub open spec fn switch_at(nodes: Seq<ParseBranch>, on_end: Option<Ending>) -> Switch {
    Switch { arms: arms_from(nodes, 0, 0), on_end }
}

/// The arm that takes a byte goes on with the `match` of the first node that
/// takes the byte. The arms are those from the match byte at `k` of the node
/// at `i` on, and none of that node's match bytes before `k` is the byte.
pub proof fn lemma_arm_of_node(nodes: Seq<ParseBranch>, b: u8, i: int, k: int)
    requires
        0 <= i <= nodes.len(),
        0 <= k,
        i < nodes.len() ==> forall|j: int|
            0 <= j < k && j < nodes[i].matches@.len() ==> nodes[i].matches@[j] != b,
    ensures
        arm_for(arms_from(nodes, i, k), b) == match node_for(nodes, b, i) {
            Some(j) => Some(switch_of(nodes[j])),
            None => None,
        },
    decreases nodes.len() - i, (if i < nodes.len() {
        nodes[i].matches@.len() - k
    } else {
        0
    }),
{
    if i < nodes.len() {
        let matches = nodes[i].matches@;
        if k >= matches.len() {
            assert(!matches.contains(b));
            lemma_arm_of_node(nodes, b, i + 1, 0);
        } else if matches[k] == b {
            assert(matches.contains(b));
        } else {
            lemma_arm_of_node(nodes, b, i, k + 1);
        }
    }
}

/// In a level of the tree the arm for a byte is the node filed under it.
proof fn lemma_arm_in_level(
    nodes: Seq<ParseBranch>,
    entries: Seq<(Seq<u8>, Seq<char>)>,
    case_sensitive: bool,
    path: Seq<u8>,
    b: u8,
    from: int,
)
    requires
        is_level(nodes, entries, case_sensitive, path),
        all_folded(entries, case_sensitive),
        0 <= from <= nodes.len(),
    ensures
        match node_for(nodes, b, from) {
            Some(i) => from <= i < nodes.len() && next_bytes(entries, path)[i] == folded(
                b,
                case_sensitive,
            ),
            None => forall|j: int|
                from <= j < nodes.len() ==> next_bytes(entries, path)[j] != folded(
                    b,
                    case_sensitive,
                ),
        },
    decreases nodes.len() - from,
{
    if from < nodes.len() {
        let firsts = next_bytes(entries, path);
        let first = firsts[from];
        assert(is_node(nodes[from], entries, case_sensitive, path.push(first)));
        assert(firsts.contains(first));
        lemma_next_bytes_contains(entries, path, first);
        let i = choose|i: int|
            0 <= i < entries.len() && #[trigger] extends(entries[i].0, path) && entries[i].0[path.len() as int]
                == first;
        assert(folded(entries[i].0[path.len() as int], case_sensitive) == first);
        lemma_alternatives_take(first, b, case_sensitive);
        if !nodes[from].matches@.contains(b) {
            lemma_arm_in_level(nodes, entries, case_sensitive, path, b, from + 1);
        }
    }
}

/// The walk down the tree along a token that spells the beginning of a
/// literal, from `depth` bytes in to the byte that ends the token.
proof fn lemma_walk(
    rules: Rules,
    nodes: Seq<ParseBranch>,
    on_end: Option<Ending>,
    entries: Seq<(Seq<u8>, Seq<char>)>,
    case_sensitive: bool,
    token: Seq<u8>,
    depth: int,
)
    requires
        all_folded(entries, case_sensitive),
        token.len() > 0,
        0 <= depth <= token.len(),
        is_level(nodes, entries, case_sensitive, fold_key(token, case_sensitive).take(depth)),
        depth > 0 ==> on_end is Some && end_outcome(on_end->0, token.take(depth)) == outcome_at(
            entries,
            fold_key(token, case_sensitive).take(depth),
            token.take(depth),
        ),
        exists|j: int|
            0 <= j < entries.len() && fold_key(token, case_sensitive).is_prefix_of(
                (#[trigger] entries[j]).0,
            ),
        !next_bytes(entries, fold_key(token, case_sensitive)).contains(
            folded(rules.end, case_sensitive),
        ),
    ensures
        run_switch(
            rules,
            switch_at(nodes, on_end),
            token.take(depth),
            token.push(rules.end),
            depth,
        ) == outcome_at(entries, fold_key(token, case_sensitive), token),
    decreases token.len() - depth,
{
    let full = fold_key(token, case_sensitive);
    let path = full.take(depth);
    let input = token.push(rules.end);
    let firsts = next_bytes(entries, path);
    let b = input[depth];
    lemma_arm_of_node(nodes, b, 0, 0);
    lemma_arm_in_level(nodes, entries, case_sensitive, path, b, 0);
    if depth == token.len() {
        assert(path =~= full);
        assert(token.take(depth) =~= token);
        if node_for(nodes, b, 0) is Some {
            let i = node_for(nodes, b, 0)->0;
            assert(firsts[i] == folded(rules.end, case_sensitive));
            assert(firsts.contains(folded(rules.end, case_sensitive)));
        }
    } else {
        let j = choose|j: int| 0 <= j < entries.len() && full.is_prefix_of((#[trigger] entries[j]).0);
        let key = entries[j].0;
        assert(key[depth] == full[depth]) by {
            assert(key.subrange(0, full.len() as int)[depth] == full[depth]);
        }
        assert(extends(key, path) && key[path.len() as int] == folded(b, case_sensitive)) by {
            assert(path =~= key.subrange(0, path.len() as int)) by {
                assert forall|k: int| 0 <= k < path.len() implies path[k] == key[k] by {
                    assert(key.subrange(0, full.len() as int)[k] == full[k]);
                }
            }
        }
        lemma_next_bytes_contains(entries, path, folded(b, case_sensitive));
        assert(firsts.contains(folded(b, case_sensitive)));
        if node_for(nodes, b, 0) is None {
            let k = choose|k: int| 0 <= k < firsts.len() && firsts[k] == folded(b, case_sensitive);
            assert(firsts[k] != folded(b, case_sensitive));
        }
        let i = node_for(nodes, b, 0)->0;
        assert(is_node(nodes[i], entries, case_sensitive, path.push(firsts[i])));
        assert(path.push(firsts[i]) =~= full.take(depth + 1));
        assert(token.take(depth).push(b) =~= token.take(depth + 1));
        assert(switch_of(nodes[i]) == switch_at(
            nodes[i].children@,
            Some(ending_of(nodes[i].result)),
        ));
        lemma_walk(
            rules,
            nodes[i].children@,
            Some(ending_of(nodes[i].result)),
            entries,
            case_sensitive,
            token,
            depth + 1,
        );
    }
}

/// A table without a repeated key files each literal's value at its key.
pub proof fn lemma_value_of_entry(entries: Seq<(Seq<u8>, Seq<char>)>, i: int)
    requires
        !has_duplicate(entries),
        0 <= i < entries.len(),
    ensures
        value_at(entries, entries[i].0) == Some(entries[i].1),
    decreases entries.len(),
{
    let before = entries.drop_last();
    let key = entries[i].0;
    if i == entries.len() - 1 {
        lemma_value_at_some(before, key);
        if value_at(before, key) is Some {
            let j = choose|j: int| 0 <= j < before.len() && (#[trigger] before[j]).0 == key;
            assert(entries[j].0 == entries[i].0);
        }
    } else {
        if has_duplicate(before) {
            let (a, b) = choose|a: int, b: int|
                0 <= a < b < before.len() && #[trigger] before[a].0 == #[trigger] before[b].0;
            assert(entries[a].0 == entries[b].0);
        }
        lemma_value_of_entry(before, i);
    }
}

/// A token that spells the beginning of a literal, or all of it, followed by
/// the byte that ends a token, returns the value filed under its spelling,
/// or the unknown outcome of the token where no value is filed there. This
/// holds unless some literal goes on with the ending byte behind the token:
/// the arm of that literal then takes the byte.
pub proof fn lemma_token_on_the_tree(
    options: Seq<(&str, &str)>,
    case_sensitive: bool,
    branches: Seq<ParseBranch>,
    rules: Rules,
    token: Seq<u8>,
)
    requires
        is_level(branches, entries_of(options, case_sensitive), case_sensitive, Seq::<u8>::empty()),
        token.len() > 0,
        exists|j: int|
            0 <= j < options.len() && fold_key(token, case_sensitive).is_prefix_of(
                (#[trigger] entries_of(options, case_sensitive)[j]).0,
            ),
        !next_bytes(entries_of(options, case_sensitive), fold_key(token, case_sensitive)).contains(
            folded(rules.end, case_sensitive),
        ),
    ensures
        run(rules, branches, token.push(rules.end)) == outcome_at(
            entries_of(options, case_sensitive),
            fold_key(token, case_sensitive),
            token,
        ),
{
    let entries = entries_of(options, case_sensitive);
    lemma_entries_are_folded(options, case_sensitive);
    assert(fold_key(token, case_sensitive).take(0) =~= Seq::<u8>::empty());
    assert(token.take(0) =~= Seq::<u8>::empty());
    lemma_walk(rules, branches, None, entries, case_sensitive, token, 0);
}

/// In a table without a repeated key, the bytes of a literal's key followed
/// by the byte that ends a token return that literal's value. This holds for
/// a key that is not empty, unless some literal goes on with the ending byte
/// behind this key.
pub proof fn lemma_literal_returns_its_value(
    options: Seq<(&str, &str)>,
    case_sensitive: bool,
    branches: Seq<ParseBranch>,
    rules: Rules,
    i: int,
)
    requires
        !has_duplicate(entries_of(options, case_sensitive)),
        is_level(branches, entries_of(options, case_sensitive), case_sensitive, Seq::<u8>::empty()),
        0 <= i < options.len(),
        options[i].0.spec_bytes().len() > 0,
        !next_bytes(
            entries_of(options, case_sensitive),
            entries_of(options, case_sensitive)[i].0,
        ).contains(folded(rules.end, case_sensitive)),
    ensures
        run(rules, branches, options[i].0.spec_bytes().push(rules.end)) == OutcomeView::Known(
            options[i].1@,
        ),
{
    let entries = entries_of(options, case_sensitive);
    let token = options[i].0.spec_bytes();
    let full = fold_key(token, case_sensitive);
    assert(full.is_prefix_of(entries[i].0)) by {
        assert(full =~= full.subrange(0, full.len() as int));
    }
    lemma_token_on_the_tree(options, case_sensitive, branches, rules, token);
    lemma_value_of_entry(entries, i);
}

/// Where case is ignored, every spelling of a literal's key in upper and
/// lower case, followed by the byte that ends a token, returns that literal's
/// value. This holds for a key that is not empty, unless some literal goes
/// on with the ending byte, in either case, behind this key.
pub proof fn lemma_any_case_returns_the_value(
    options: Seq<(&str, &str)>,
    branches: Seq<ParseBranch>,
    rules: Rules,
    i: int,
    spelling: Seq<u8>,
)
    requires
        !has_duplicate(entries_of(options, false)),
        is_level(branches, entries_of(options, false), false, Seq::<u8>::empty()),
        0 <= i < options.len(),
        spelling.len() == options[i].0.spec_bytes().len(),
        spelling.len() > 0,
        forall|k: int|
            0 <= k < spelling.len() ==> upper(#[trigger] spelling[k]) == upper(
                options[i].0.spec_bytes()[k],
            ),
        !next_bytes(entries_of(options, false), entries_of(options, false)[i].0).contains(
            upper(rules.end),
        ),
    ensures
        run(rules, branches, spelling.push(rules.end)) == OutcomeView::Known(options[i].1@),
{
    let entries = entries_of(options, false);
    let full = fold_key(spelling, false);
    assert(full =~= entries[i].0);
    assert(full.is_prefix_of(entries[i].0)) by {
        assert(full =~= full.subrange(0, full.len() as int));
    }
    lemma_token_on_the_tree(options, false, branches, rules, spelling);
    lemma_value_of_entry(entries, i);
}

/// A token that spells a literal's key in part, followed by the byte that
/// ends a token, returns the unknown outcome of the token, not the
/// literal's value. This holds for a token that is not empty and is no
/// literal's key itself, unless some literal goes on with the ending byte
/// behind the token.
pub proof fn lemma_strict_prefix_is_unknown(
    options: Seq<(&str, &str)>,
    case_sensitive: bool,
    branches: Seq<ParseBranch>,
    rules: Rules,
    i: int,
    token: Seq<u8>,
)
    requires
        is_level(branches, entries_of(options, case_sensitive), case_sensitive, Seq::<u8>::empty()),
        0 <= i < options.len(),
        token.len() > 0,
        extends(entries_of(options, case_sensitive)[i].0, fold_key(token, case_sensitive)),
        value_at(entries_of(options, case_sensitive), fold_key(token, case_sensitive)) is None,
        !next_bytes(entries_of(options, case_sensitive), fold_key(token, case_sensitive)).contains(
            folded(rules.end, case_sensitive),
        ),
    ensures
        run(rules, branches, token.push(rules.end)) == OutcomeView::Unknown(token),
{
    let entries = entries_of(options, case_sensitive);
    assert(fold_key(token, case_sensitive).is_prefix_of(entries[i].0));
    lemma_token_on_the_tree(options, case_sensitive, branches, rules, token);
}

proof fn lemma_collecting_finishes(rules: Rules, token: Seq<u8>, held: int)
    requires
        0 < held <= token.len() <= rules.max_len,
        forall|k: int|
            0 <= k < token.len() ==> rules.accepts(#[trigger] token[k]) && token[k] != rules.end,
    ensures
        run_fallback(rules, token.take(held), token.push(rules.end), held) == OutcomeView::Unknown(
            token,
        ),
    decreases token.len() - held,
{
    if held == token.len() {
        assert(token.take(held) =~= token);
    } else {
        assert(rules.accepts(token[held]) && token[held] != rules.end);
        assert(token.take(held).push(token[held]) =~= token.take(held + 1));
        lemma_collecting_finishes(rules, token, held + 1);
    }
}

proof fn lemma_walk_off(
    rules: Rules,
    nodes: Seq<ParseBranch>,
    on_end: Option<Ending>,
    entries: Seq<(Seq<u8>, Seq<char>)>,
    case_sensitive: bool,
    token: Seq<u8>,
    depth: int,
)
    requires
        all_folded(entries, case_sensitive),
        0 <= depth <= token.len(),
        0 < token.len() <= rules.max_len,
        is_level(nodes, entries, case_sensitive, fold_key(token, case_sensitive).take(depth)),
        forall|k: int|
            0 <= k < token.len() ==> rules.accepts(#[trigger] token[k]) && token[k] != rules.end,
        depth > 0 ==> exists|j: int|
            0 <= j < entries.len() && fold_key(token, case_sensitive).take(depth).is_prefix_of(
                (#[trigger] entries[j]).0,
            ),
        forall|j: int|
            0 <= j < entries.len() ==> !fold_key(token, case_sensitive).is_prefix_of(
                (#[trigger] entries[j]).0,
            ),
    ensures
        run_switch(
            rules,
            switch_at(nodes, on_end),
            token.take(depth),
            token.push(rules.end),
            depth,
        ) == OutcomeView::Unknown(token),
    decreases token.len() - depth,
{
    let full = fold_key(token, case_sensitive);
    let path = full.take(depth);
    let firsts = next_bytes(entries, path);
    if depth == token.len() {
        assert(path =~= full);
    } else {
        let b = token[depth];
        assert(rules.accepts(b) && b != rules.end);
        lemma_arm_of_node(nodes, b, 0, 0);
        lemma_arm_in_level(nodes, entries, case_sensitive, path, b, 0);
        assert(token.take(depth).push(b) =~= token.take(depth + 1));
        match node_for(nodes, b, 0) {
            Some(i) => {
                assert(firsts.contains(firsts[i]));
                lemma_next_bytes_contains(entries, path, firsts[i]);
                let j = choose|j: int|
                    0 <= j < entries.len() && #[trigger] extends(entries[j].0, path)
                        && entries[j].0[path.len() as int] == firsts[i];
                lemma_prefix_step(entries[j].0, path, firsts[i]);
                assert(path.push(firsts[i]) =~= full.take(depth + 1));
                assert(full.take(depth + 1).is_prefix_of(entries[j].0));
                assert(is_node(nodes[i], entries, case_sensitive, path.push(firsts[i])));
                assert(switch_of(nodes[i]) == switch_at(
                    nodes[i].children@,
                    Some(ending_of(nodes[i].result)),
                ));
                lemma_walk_off(
                    rules,
                    nodes[i].children@,
                    Some(ending_of(nodes[i].result)),
                    entries,
                    case_sensitive,
                    token,
                    depth + 1,
                );
            },
            None => {
                lemma_collecting_finishes(rules, token, depth + 1);
            },
        }
    }
}

/// A token that no literal begins with, followed by the byte that ends a
/// token, returns the unknown outcome of the token. This is stated for a
/// token that is not empty and not longer than the maximum, and whose bytes
/// may all stand in a token and are not the ending byte.
pub proof fn lemma_token_off_the_tree(
    options: Seq<(&str, &str)>,
    case_sensitive: bool,
    branches: Seq<ParseBranch>,
    rules: Rules,
    token: Seq<u8>,
)
    requires
        is_level(branches, entries_of(options, case_sensitive), case_sensitive, Seq::<u8>::empty()),
        0 < token.len() <= rules.max_len,
        forall|k: int|
            0 <= k < token.len() ==> rules.accepts(#[trigger] token[k]) && token[k] != rules.end,
        forall|j: int|
            0 <= j < options.len() ==> !fold_key(token, case_sensitive).is_prefix_of(
                (#[trigger] entries_of(options, case_sensitive)[j]).0,
            ),
    ensures
        run(rules, branches, token.push(rules.end)) == OutcomeView::Unknown(token),
{
    let entries = entries_of(options, case_sensitive);
    lemma_entries_are_folded(options, case_sensitive);
    assert(fold_key(token, case_sensitive).take(0) =~= Seq::<u8>::empty());
    assert(token.take(0) =~= Seq::<u8>::empty());
    lemma_walk_off(rules, branches, None, entries, case_sensitive, token, 0);
}

/// The number of bytes of `input`, from `pos` on, that the arms take before
/// a byte comes that no arm takes.
pub open spec fn arms_taken(switch: Switch, input: Seq<u8>, pos: int) -> nat
    decreases input.len() - pos,
{
    if pos < 0 || pos >= input.len() {
        0
    } else {
        match arm_for(switch.arms, input[pos]) {
            Some(then) => 1 + arms_taken(then, input, pos + 1),
            None => 0,
        }
    }
}

/// The collecting loop returns no match where the text it holds, with the
/// bytes that come before the byte that ends the token, is longer than the
/// maximum. The bytes from `pos` up to `upto` are those that come before the
/// ending byte.
pub proof fn lemma_collecting_gives_up(
    rules: Rules,
    text: Seq<u8>,
    input: Seq<u8>,
    pos: int,
    upto: int,
)
    requires
        0 <= pos < upto <= input.len(),
        forall|k: int| pos <= k < upto ==> input[k] != rules.end,
        text.len() + (upto - pos) > rules.max_len,
    ensures
        run_fallback(rules, text, input, pos) == OutcomeView::NoMatch,
    decreases upto - pos,
{
    if rules.accepts(input[pos]) && text.len() < rules.max_len {
        lemma_collecting_gives_up(rules, text.push(input[pos]), input, pos + 1, upto);
    }
}

proof fn lemma_switch_gives_up(
    rules: Rules,
    switch: Switch,
    matched: Seq<u8>,
    input: Seq<u8>,
    pos: int,
    upto: int,
)
    requires
        0 <= pos,
        matched.len() == pos,
        upto <= input.len(),
        forall|k: int| 0 <= k < upto ==> input[k] != rules.end,
        upto > rules.max_len,
        pos + arms_taken(switch, input, pos) < upto,
    ensures
        run_switch(rules, switch, matched, input, pos) == OutcomeView::NoMatch,
    decreases input.len() - pos,
{
    let b = input[pos];
    match arm_for(switch.arms, b) {
        Some(then) => {
            lemma_switch_gives_up(rules, then, matched.push(b), input, pos + 1, upto);
        },
        None => {
            if rules.accepts(b) && matched.len() < rules.max_len {
                lemma_collecting_gives_up(rules, matched.push(b), input, pos + 1, upto);
            }
        },
    }
}

/// An input that goes on beyond the maximum length before the byte that
/// ends a token comes returns no match, where a byte comes among them that
/// no arm takes. The first `upto` bytes are those that come before the
/// ending byte. Where the arms take them all, the token ends in the tree and
/// nothing is collected.
pub proof fn lemma_overlong_token_is_no_match(
    rules: Rules,
    branches: Seq<ParseBranch>,
    input: Seq<u8>,
    upto: int,
)
    requires
        rules.max_len < upto <= input.len(),
        forall|k: int| 0 <= k < upto ==> input[k] != rules.end,
        arms_taken(method_of(branches), input, 0) < upto,
    ensures
        run(rules, branches, input) == OutcomeView::NoMatch,
{
    lemma_switch_gives_up(rules, method_of(branches), Seq::<u8>::empty(), input, 0, upto);
}

proof fn lemma_arms_leave_the_tree(
    nodes: Seq<ParseBranch>,
    on_end: Option<Ending>,
    entries: Seq<(Seq<u8>, Seq<char>)>,
    case_sensitive: bool,
    input: Seq<u8>,
    depth: int,
    upto: int,
)
    requires
        all_folded(entries, case_sensitive),
        0 <= depth <= upto <= input.len(),
        0 < upto,
        is_level(
            nodes,
            entries,
            case_sensitive,
            fold_key(input.take(upto), case_sensitive).take(depth),
        ),
        depth > 0 ==> exists|j: int|
            0 <= j < entries.len() && fold_key(input.take(upto), case_sensitive).take(
                depth,
            ).is_prefix_of((#[trigger] entries[j]).0),
        forall|j: int|
            0 <= j < entries.len() ==> !fold_key(input.take(upto), case_sensitive).is_prefix_of(
                (#[trigger] entries[j]).0,
            ),
    ensures
        depth + arms_taken(switch_at(nodes, on_end), input, depth) < upto,
    decreases upto - depth,
{
    let full = fold_key(input.take(upto), case_sensitive);
    let path = full.take(depth);
    let firsts = next_bytes(entries, path);
    if depth == upto {
        assert(path =~= full);
    } else {
        let b = input[depth];
        assert(input.take(upto)[depth] == b);
        lemma_arm_of_node(nodes, b, 0, 0);
        lemma_arm_in_level(nodes, entries, case_sensitive, path, b, 0);
        match node_for(nodes, b, 0) {
            Some(i) => {
                assert(firsts.contains(firsts[i]));
                lemma_next_bytes_contains(entries, path, firsts[i]);
                let j = choose|j: int|
                    0 <= j < entries.len() && #[trigger] extends(entries[j].0, path)
                        && entries[j].0[path.len() as int] == firsts[i];
                lemma_prefix_step(entries[j].0, path, firsts[i]);
                assert(path.push(firsts[i]) =~= full.take(depth + 1));
                assert(full.take(depth + 1).is_prefix_of(entries[j].0));
                assert(is_node(nodes[i], entries, case_sensitive, path.push(firsts[i])));
                assert(switch_of(nodes[i]) == switch_at(
                    nodes[i].children@,
                    Some(ending_of(nodes[i].result)),
                ));
                lemma_arms_leave_the_tree(
                    nodes[i].children@,
                    Some(ending_of(nodes[i].result)),
                    entries,
                    case_sensitive,
                    input,
                    depth + 1,
                    upto,
                );
            },
            None => {},
        }
    }
}

/// An input that begins with more bytes than the maximum, none of them the
/// byte that ends a token, returns no match where no literal begins with
/// those bytes, whatever follows them. The first `upto` bytes are those
/// bytes.
pub proof fn lemma_overlong_unlisted_token_is_no_match(
    options: Seq<(&str, &str)>,
    case_sensitive: bool,
    branches: Seq<ParseBranch>,
    rules: Rules,
    input: Seq<u8>,
    upto: int,
)
    requires
        is_level(branches, entries_of(options, case_sensitive), case_sensitive, Seq::<u8>::empty()),
        rules.max_len < upto <= input.len(),
        forall|k: int| 0 <= k < upto ==> input[k] != rules.end,
        forall|j: int|
            0 <= j < options.len() ==> !fold_key(input.take(upto), case_sensitive).is_prefix_of(
                (#[trigger] entries_of(options, case_sensitive)[j]).0,
            ),
    ensures
        run(rules, branches, input) == OutcomeView::NoMatch,
{
    let entries = entries_of(options, case_sensitive);
    lemma_entries_are_folded(options, case_sensitive);
    assert(fold_key(input.take(upto), case_sensitive).take(0) =~= Seq::<u8>::empty());
    lemma_arms_leave_the_tree(branches, None, entries, case_sensitive, input, 0, upto);
    lemma_overlong_token_is_no_match(rules, branches, input, upto);
}

/// The collecting loop, entered with a text within the maximum, returns no
/// text beyond the maximum, and no literal's value.
pub proof fn lemma_collected_text_is_within_the_maximum(
    rules: Rules,
    text: Seq<u8>,
    input: Seq<u8>,
    pos: int,
)
    requires
        0 <= pos,
        text.len() <= rules.max_len,
    ensures
        match run_fallback(rules, text, input, pos) {
            OutcomeView::Unknown(collected) => collected.len() <= rules.max_len,
            OutcomeView::Known(_) => false,
            OutcomeView::NoMatch => true,
        },
    decreases input.len() - pos,
{
    if pos < input.len() && input[pos] != rules.end && rules.accepts(input[pos]) && text.len()
        < rules.max_len {
        lemma_collected_text_is_within_the_maximum(rules, text.push(input[pos]), input, pos + 1);
    }
}

proof fn lemma_collecting_needs_the_end(rules: Rules, text: Seq<u8>, input: Seq<u8>, pos: int)
    requires
        0 <= pos,
        forall|k: int| pos <= k < input.len() ==> input[k] != rules.end,
    ensures
        run_fallback(rules, text, input, pos) == OutcomeView::NoMatch,
    decreases input.len() - pos,
{
    if pos < input.len() && rules.accepts(input[pos]) && text.len() < rules.max_len {
        lemma_collecting_needs_the_end(rules, text.push(input[pos]), input, pos + 1);
    }
}

proof fn lemma_switch_needs_the_end(
    rules: Rules,
    switch: Switch,
    matched: Seq<u8>,
    input: Seq<u8>,
    pos: int,
)
    requires
        0 <= pos,
        forall|k: int| pos <= k < input.len() ==> input[k] != rules.end,
    ensures
        run_switch(rules, switch, matched, input, pos) == OutcomeView::NoMatch,
    decreases input.len() - pos,
{
    if pos < input.len() {
        let b = input[pos];
        match arm_for(switch.arms, b) {
            Some(then) => {
                lemma_switch_needs_the_end(rules, then, matched.push(b), input, pos + 1);
            },
            None => {
                lemma_collecting_needs_the_end(rules, matched.push(b), input, pos + 1);
            },
        }
    }
}

/// An input in which the byte that ends a token does not occur returns no
/// match, whatever the tree and wherever the input ends.
pub proof fn lemma_unterminated_input_is_no_match(
    rules: Rules,
    branches: Seq<ParseBranch>,
    input: Seq<u8>,
)
    requires
        forall|k: int| 0 <= k < input.len() ==> input[k] != rules.end,
    ensures
        run(rules, branches, input) == OutcomeView::NoMatch,
{
    lemma_switch_needs_the_end(rules, method_of(branches), Seq::<u8>::empty(), input, 0);
}

proof fn lemma_collecting_stops_at(rules: Rules, text: Seq<u8>, input: Seq<u8>, pos: int) -> (at: int)
    requires
        0 <= pos,
        run_fallback(rules, text, input, pos) != OutcomeView::NoMatch,
    ensures
        pos <= at < input.len(),
        input[at] == rules.end,
        forall|cut: int|
            0 <= cut <= at ==> #[trigger] run_fallback(rules, text, input.take(cut), pos)
                == OutcomeView::NoMatch,
    decreases input.len() - pos,
{
    if input[pos] == rules.end {
        pos
    } else {
        let at = lemma_collecting_stops_at(rules, text.push(input[pos]), input, pos + 1);
        assert forall|cut: int| 0 <= cut <= at implies #[trigger] run_fallback(
            rules,
            text,
            input.take(cut),
            pos,
        ) == OutcomeView::NoMatch by {
            let shorter = input.take(cut);
            if cut > pos {
                assert(shorter[pos] == input[pos]);
                assert(run_fallback(rules, text.push(input[pos]), shorter, pos + 1)
                    == OutcomeView::NoMatch);
            }
        }
        at
    }
}

proof fn lemma_switch_stops_at(
    rules: Rules,
    switch: Switch,
    matched: Seq<u8>,
    input: Seq<u8>,
    pos: int,
) -> (at: int)
    requires
        0 <= pos,
        run_switch(rules, switch, matched, input, pos) != OutcomeView::NoMatch,
    ensures
        pos <= at < input.len(),
        input[at] == rules.end,
        forall|cut: int|
            0 <= cut <= at ==> #[trigger] run_switch(rules, switch, matched, input.take(cut), pos)
                == OutcomeView::NoMatch,
    decreases input.len() - pos,
{
    let b = input[pos];
    match arm_for(switch.arms, b) {
        Some(then) => {
            let at = lemma_switch_stops_at(rules, then, matched.push(b), input, pos + 1);
            assert forall|cut: int| 0 <= cut <= at implies #[trigger] run_switch(
                rules,
                switch,
                matched,
                input.take(cut),
                pos,
            ) == OutcomeView::NoMatch by {
                let shorter = input.take(cut);
                if cut > pos {
                    assert(shorter[pos] == b);
                    assert(run_switch(rules, then, matched.push(b), shorter, pos + 1)
                        == OutcomeView::NoMatch);
                }
            }
            at
        },
        None => {
            if switch.on_end is Some && b == rules.end {
                pos
            } else {
                let at = lemma_collecting_stops_at(rules, matched.push(b), input, pos + 1);
                assert forall|cut: int| 0 <= cut <= at implies #[trigger] run_switch(
                    rules,
                    switch,
                    matched,
                    input.take(cut),
                    pos,
                ) == OutcomeView::NoMatch by {
                    let shorter = input.take(cut);
                    if cut > pos {
                        assert(shorter[pos] == b);
                        assert(run_fallback(rules, matched.push(b), shorter, pos + 1)
                            == OutcomeView::NoMatch);
                    }
                }
                at
            }
        },
    }
}

/// A run that returns an outcome has read a byte that ends a token, at the
/// place `at`, and every input that ends before that byte is read returns
/// no match, whether it ends in the tree or in the collecting loop.
pub proof fn lemma_input_that_ends_early_is_no_match(
    rules: Rules,
    branches: Seq<ParseBranch>,
    input: Seq<u8>,
) -> (at: int)
    requires
        run(rules, branches, input) != OutcomeView::NoMatch,
    ensures
        0 <= at < input.len(),
        input[at] == rules.end,
        forall|cut: int|
            0 <= cut <= at ==> #[trigger] run(rules, branches, input.take(cut))
                == OutcomeView::NoMatch,
{
    let method = method_of(branches);
    let at = lemma_switch_stops_at(rules, method, Seq::<u8>::empty(), input, 0);
    assert forall|cut: int| 0 <= cut <= at implies #[trigger] run(rules, branches, input.take(cut))
        == OutcomeView::NoMatch by {
        assert(run_switch(rules, method, Seq::<u8>::empty(), input.take(cut), 0)
            == OutcomeView::NoMatch);
    }
    at
}

} // verus!
