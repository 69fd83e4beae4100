//! The prefix tree that a literal table folds into.
//!
//! A table is a list of literals, each a key of bytes with a value. Its tree
//! has one node for every non-empty prefix that some key begins with. Without
//! case sensitivity a key is filed under its upper-case form, and a node
//! accepts both cases of its byte.

use vstd::prelude::*;
use vstd::string::*;

verus! {

/// One node of the prefix tree: the bytes that lead into it, the value of the
/// literal that ends here, if any, and the nodes one byte further on.
#[derive(Debug)]
pub struct ParseBranch {
    pub matches: Vec<u8>,
    pub result: Option<String>,
    pub children: Vec<ParseBranch>,
}

/// Two literals of a table spell the same key: the one at `second` repeats
/// the one at `first`.
#[derive(Debug, Clone, Copy, PartialEq, Eq)]
pub struct DuplicateKey {
    pub first: usize,
    pub second: usize,
}

/// The upper-case form of an ASCII letter; any other byte as it is.
pub open spec fn upper(b: u8) -> u8 {
    if 0x61 <= b && b <= 0x7a {
        (b - 0x20) as u8
    } else {
        b
    }
}

/// The lower-case form of an ASCII letter; any other byte as it is.
pub open spec fn lower(b: u8) -> u8 {
    if 0x41 <= b && b <= 0x5a {
        (b + 0x20) as u8
    } else {
        b
    }
}

/// The byte that a key's byte is filed under.
pub open spec fn folded(b: u8, case_sensitive: bool) -> u8 {
    if case_sensitive {
        b
    } else {
        upper(b)
    }
}

/// A key as the tree files it, byte by byte.
pub open spec fn fold_key(key: Seq<u8>, case_sensitive: bool) -> Seq<u8> {
    Seq::new(key.len(), |i: int| folded(key[i], case_sensitive))
}

/// The bytes that a node filed under `first` accepts: the byte itself, and
/// behind it its lower-case form where case is ignored and that is another
/// byte.
pub open spec fn alternatives(first: u8, case_sensitive: bool) -> Seq<u8> {
    if case_sensitive || lower(first) == first {
        seq![first]
    } else {
        seq![first, lower(first)]
    }
}

/// A table as the tree sees it: each literal's folded key with its value.
pub open spec fn entries_of(options: Seq<(&str, &str)>, case_sensitive: bool) -> Seq<
    (Seq<u8>, Seq<char>),
> {
    Seq::new(
        options.len(),
        |i: int| (fold_key(options[i].0.spec_bytes(), case_sensitive), options[i].1@),
    )
}

/// `key` begins with `path` and goes on beyond it.
pub open spec fn extends(key: Seq<u8>, path: Seq<u8>) -> bool {
    path.is_prefix_of(key) && key.len() > path.len()
}

/// The bytes that follow `path` in the keys that go on beyond it, each once,
/// in the order in which the table first shows them.
pub open spec fn next_bytes(entries: Seq<(Seq<u8>, Seq<char>)>, path: Seq<u8>) -> Seq<u8>
    decreases entries.len(),
{
    if entries.len() == 0 {
        Seq::<u8>::empty()
    } else {
        let before = next_bytes(entries.drop_last(), path);
        let key = entries.last().0;
        if extends(key, path) && !before.contains(key[path.len() as int]) {
            before.push(key[path.len() as int])
        } else {
            before
        }
    }
}

/// The value of the first literal whose key is `path`, if there is one.
pub open spec fn value_at(entries: Seq<(Seq<u8>, Seq<char>)>, path: Seq<u8>) -> Option<Seq<char>>
    decreases entries.len(),
{
    if entries.len() == 0 {
        None
    } else {
        match value_at(entries.drop_last(), path) {
            Some(value) => Some(value),
            None => if entries.last().0 == path {
                Some(entries.last().1)
            } else {
                None
            },
        }
    }
}

/// Two literals of the table have the same key.
pub open spec fn has_duplicate(entries: Seq<(Seq<u8>, Seq<char>)>) -> bool {
    exists|i: int, j: int| 0 <= i < j < entries.len() && #[trigger] entries[i].0 == #[trigger] entries[j].0
}

/// The literal at `second` is the first of the table to repeat a key, and
/// `first` is where that key stood before.
pub open spec fn is_first_duplicate(
    entries: Seq<(Seq<u8>, Seq<char>)>,
    first: int,
    second: int,
) -> bool {
    &&& 0 <= first < second < entries.len()
    &&& entries[first].0 == entries[second].0
    &&& !has_duplicate(entries.take(second))
}

/// A node's value as text.
pub open spec fn value_view(result: Option<String>) -> Option<Seq<char>> {
    match result {
        Some(value) => Some(value@),
        None => None,
    }
}

/// `nodes` are the nodes of the table's tree that stand one byte beyond
/// `path`: one for each of `next_bytes`, in that order.
pub open spec fn is_level(
    nodes: Seq<ParseBranch>,
    entries: Seq<(Seq<u8>, Seq<char>)>,
    case_sensitive: bool,
    path: Seq<u8>,
) -> bool
    decreases nodes, 1nat,
{
    let firsts = next_bytes(entries, path);
    &&& nodes.len() == firsts.len()
    &&& forall|i: int|
        0 <= i < nodes.len() ==> is_node(
            #[trigger] nodes[i],
            entries,
            case_sensitive,
            path.push(firsts[i]),
        )
}

/// `node` is the node of the table's tree that `path` leads to: it accepts
/// the alternatives of the path's last byte, holds the value of the literal
/// whose key is `path`, and its children are the level beyond `path`.
pub open spec fn is_node(
    node: ParseBranch,
    entries: Seq<(Seq<u8>, Seq<char>)>,
    case_sensitive: bool,
    path: Seq<u8>,
) -> bool
    decreases node, 0nat,
{
    &&& path.len() > 0
    &&& node.matches@ == alternatives(path.last(), case_sensitive)
    &&& value_view(node.result) == value_at(entries, path)
    &&& is_level(node.children@, entries, case_sensitive, path)
}

/// Adding a literal adds its next byte behind the others, unless the byte is
/// there or the key does not go on beyond `path`.
pub proof fn lemma_next_bytes_push(
    entries: Seq<(Seq<u8>, Seq<char>)>,
    entry: (Seq<u8>, Seq<char>),
    path: Seq<u8>,
)
    ensures
        next_bytes(entries.push(entry), path) == if extends(entry.0, path) && !next_bytes(
            entries,
            path,
        ).contains(entry.0[path.len() as int]) {
            next_bytes(entries, path).push(entry.0[path.len() as int])
        } else {
            next_bytes(entries, path)
        },
{
    assert(entries.push(entry).drop_last() =~= entries);
}

/// Adding a literal gives `path` its value where the key is `path` and no
/// earlier literal had that key.
pub proof fn lemma_value_at_push(
    entries: Seq<(Seq<u8>, Seq<char>)>,
    entry: (Seq<u8>, Seq<char>),
    path: Seq<u8>,
)
    ensures
        value_at(entries.push(entry), path) == match value_at(entries, path) {
            Some(value) => Some(value),
            None => if entry.0 == path {
                Some(entry.1)
            } else {
                None
            },
        },
{
    assert(entries.push(entry).drop_last() =~= entries);
}

/// A byte is among the next bytes exactly if some key goes on with it.
pub proof fn lemma_next_bytes_contains(entries: Seq<(Seq<u8>, Seq<char>)>, path: Seq<u8>, c: u8)
    ensures
        next_bytes(entries, path).contains(c) <==> exists|i: int|
            0 <= i < entries.len() && #[trigger] extends(entries[i].0, path) && entries[i].0[path.len() as int]
                == c,
    decreases entries.len(),
{
    let firsts = next_bytes(entries, path);
    if entries.len() > 0 {
        let before_entries = entries.drop_last();
        let before = next_bytes(before_entries, path);
        let key = entries.last().0;
        lemma_next_bytes_contains(before_entries, path, c);
        if firsts.contains(c) {
            if before.contains(c) {
                let i = choose|i: int|
                    0 <= i < before_entries.len() && #[trigger] extends(before_entries[i].0, path)
                        && before_entries[i].0[path.len() as int] == c;
                assert(extends(entries[i].0, path) && entries[i].0[path.len() as int] == c);
            } else {
                let k = choose|k: int| 0 <= k < firsts.len() && firsts[k] == c;
                assert(k == before.len());
                let i = entries.len() - 1;
                assert(extends(entries[i].0, path) && entries[i].0[path.len() as int] == c);
            }
        }
        if exists|i: int|
            0 <= i < entries.len() && #[trigger] extends(entries[i].0, path) && entries[i].0[path.len() as int]
                == c {
            let i = choose|i: int|
                0 <= i < entries.len() && #[trigger] extends(entries[i].0, path) && entries[i].0[path.len() as int]
                    == c;
            if i < entries.len() - 1 {
                assert(extends(before_entries[i].0, path) && before_entries[i].0[path.len() as int]
                    == c);
                assert(before.contains(c));
                let k = choose|k: int| 0 <= k < before.len() && before[k] == c;
                assert(firsts[k] == c);
            } else if !before.contains(c) {
                assert(firsts[before.len() as int] == c);
            } else {
                let k = choose|k: int| 0 <= k < before.len() && before[k] == c;
                assert(firsts[k] == c);
            }
        }
    }
}

/// No byte stands twice among the next bytes.
pub proof fn lemma_next_bytes_distinct(entries: Seq<(Seq<u8>, Seq<char>)>, path: Seq<u8>)
    ensures
        next_bytes(entries, path).no_duplicates(),
    decreases entries.len(),
{
    if entries.len() > 0 {
        lemma_next_bytes_distinct(entries.drop_last(), path);
    }
}

/// A path has a value exactly if some literal's key is the path.
pub proof fn lemma_value_at_some(entries: Seq<(Seq<u8>, Seq<char>)>, path: Seq<u8>)
    ensures
        value_at(entries, path) is Some <==> exists|i: int|
            0 <= i < entries.len() && (#[trigger] entries[i]).0 == path,
    decreases entries.len(),
{
    if entries.len() > 0 {
        let before = entries.drop_last();
        lemma_value_at_some(before, path);
        if value_at(entries, path) is Some {
            if value_at(before, path) is Some {
                let i = choose|i: int| 0 <= i < before.len() && (#[trigger] before[i]).0 == path;
                assert(entries[i].0 == path);
            } else {
                assert(entries[entries.len() - 1].0 == path);
            }
        }
        if exists|i: int| 0 <= i < entries.len() && (#[trigger] entries[i]).0 == path {
            let i = choose|i: int| 0 <= i < entries.len() && (#[trigger] entries[i]).0 == path;
            if i < entries.len() - 1 {
                assert(before[i].0 == path);
            }
        }
    }
}

/// Where no key begins with `path`, nothing lies at `path` or beyond it.
pub proof fn lemma_unused_path(entries: Seq<(Seq<u8>, Seq<char>)>, path: Seq<u8>)
    requires
        forall|i: int| 0 <= i < entries.len() ==> !path.is_prefix_of((#[trigger] entries[i]).0),
    ensures
        next_bytes(entries, path) == Seq::<u8>::empty(),
        value_at(entries, path) is None,
{
    let firsts = next_bytes(entries, path);
    if firsts.len() > 0 {
        assert(firsts.contains(firsts[0]));
        lemma_next_bytes_contains(entries, path, firsts[0]);
    }
    assert(firsts =~= Seq::<u8>::empty());
    lemma_value_at_some(entries, path);
    if value_at(entries, path) is Some {
        let i = choose|i: int| 0 <= i < entries.len() && (#[trigger] entries[i]).0 == path;
        assert(path.is_prefix_of(entries[i].0));
    }
}

/// A key begins with a path and one byte more exactly if it goes on beyond
/// the path with that byte.
pub proof fn lemma_prefix_step(key: Seq<u8>, path: Seq<u8>, c: u8)
    ensures
        path.push(c).is_prefix_of(key) <==> extends(key, path) && key[path.len() as int] == c,
{
    let longer = path.push(c);
    if longer.is_prefix_of(key) {
        assert(key.subrange(0, longer.len() as int)[path.len() as int] == c);
        assert(path =~= key.subrange(0, path.len() as int)) by {
            assert forall|i: int| 0 <= i < path.len() implies path[i] == key[i] by {
                assert(key.subrange(0, longer.len() as int)[i] == longer[i]);
            }
        }
    }
    if extends(key, path) && key[path.len() as int] == c {
        assert(longer =~= key.subrange(0, longer.len() as int)) by {
            assert forall|i: int| 0 <= i < longer.len() implies longer[i] == key[i] by {
                if i < path.len() {
                    assert(key.subrange(0, path.len() as int)[i] == path[i]);
                }
            }
        }
    }
}

/// A literal whose key does not begin with `path` leaves the level beyond
/// `path` as it is.
proof fn lemma_level_unaffected(
    nodes: Seq<ParseBranch>,
    entries: Seq<(Seq<u8>, Seq<char>)>,
    entry: (Seq<u8>, Seq<char>),
    case_sensitive: bool,
    path: Seq<u8>,
)
    requires
        is_level(nodes, entries, case_sensitive, path),
        !path.is_prefix_of(entry.0),
    ensures
        is_level(nodes, entries.push(entry), case_sensitive, path),
    decreases nodes, 1nat,
{
    lemma_next_bytes_push(entries, entry, path);
    let firsts = next_bytes(entries, path);
    assert forall|i: int| 0 <= i < nodes.len() implies is_node(
        #[trigger] nodes[i],
        entries.push(entry),
        case_sensitive,
        path.push(firsts[i]),
    ) by {
        lemma_prefix_step(entry.0, path, firsts[i]);
        lemma_node_unaffected(nodes[i], entries, entry, case_sensitive, path.push(firsts[i]));
    }
}

/// A literal whose key does not begin with `path` leaves the node at `path`
/// as it is.
proof fn lemma_node_unaffected(
    node: ParseBranch,
    entries: Seq<(Seq<u8>, Seq<char>)>,
    entry: (Seq<u8>, Seq<char>),
    case_sensitive: bool,
    path: Seq<u8>,
)
    requires
        is_node(node, entries, case_sensitive, path),
        !path.is_prefix_of(entry.0),
    ensures
        is_node(node, entries.push(entry), case_sensitive, path),
    decreases node, 0nat,
{
    lemma_value_at_push(entries, entry, path);
    assert(path.is_prefix_of(path)) by {
        assert(path =~= path.subrange(0, path.len() as int));
    }
    lemma_level_unaffected(node.children@, entries, entry, case_sensitive, path);
}

/// The upper-case form of an ASCII letter; any other byte as it is.
pub fn to_upper(b: u8) -> (r: u8)
    ensures
        r == upper(b),
{
    if 0x61 <= b && b <= 0x7a {
        b - 0x20
    } else {
        b
    }
}

/// The lower-case form of an ASCII letter; any other byte as it is.
pub fn to_lower(b: u8) -> (r: u8)
    ensures
        r == lower(b),
{
    if 0x41 <= b && b <= 0x5a {
        b + 0x20
    } else {
        b
    }
}

/// Files the literal `key` with `value` below `branch`, which stands `pos`
/// bytes into the key. Tells whether the key was new; if it was not, the
/// tree is of no further use.
fn insert(
    branch: &mut ParseBranch,
    key: &[u8],
    pos: usize,
    value: &str,
    case_sensitive: bool,
    Ghost(entries): Ghost<Seq<(Seq<u8>, Seq<char>)>>,
) -> (fresh: bool)
    requires
        pos <= key@.len(),
        is_level(
            old(branch).children@,
            entries,
            case_sensitive,
            fold_key(key@, case_sensitive).take(pos as int),
        ),
        value_view(old(branch).result) == value_at(
            entries,
            fold_key(key@, case_sensitive).take(pos as int),
        ),
    ensures
        fresh <==> value_at(entries, fold_key(key@, case_sensitive)) is None,
        fresh ==> final(branch).matches@ == old(branch).matches@,
        fresh ==> is_level(
            final(branch).children@,
            entries.push((fold_key(key@, case_sensitive), value@)),
            case_sensitive,
            fold_key(key@, case_sensitive).take(pos as int),
        ),
        fresh ==> value_view(final(branch).result) == value_at(
            entries.push((fold_key(key@, case_sensitive), value@)),
            fold_key(key@, case_sensitive).take(pos as int),
        ),
    decreases key@.len() - pos,
{
    let ghost full = fold_key(key@, case_sensitive);
    let ghost path = full.take(pos as int);
    let ghost entry = (full, value@);
    let ghost grown = entries.push(entry);
    let ghost firsts = next_bytes(entries, path);
    proof {
        lemma_value_at_push(entries, entry, path);
        lemma_next_bytes_push(entries, entry, path);
        lemma_next_bytes_distinct(entries, path);
    }
    if pos == key.len() {
        assert(path =~= full);
        if branch.result.is_some() {
            return false;
        }
        branch.result = Some(value.to_owned());
        proof {
            assert forall|i: int| 0 <= i < branch.children@.len() implies is_node(
                #[trigger] branch.children@[i],
                grown,
                case_sensitive,
                path.push(firsts[i]),
            ) by {
                lemma_prefix_step(full, path, firsts[i]);
                lemma_node_unaffected(
                    branch.children@[i],
                    entries,
                    entry,
                    case_sensitive,
                    path.push(firsts[i]),
                );
            }
        }
        return true;
    }
    let c: u8 = key[pos];
    let first: u8 = if case_sensitive {
        c
    } else {
        to_upper(c)
    };
    assert(full[pos as int] == first);
    assert(path.is_prefix_of(full));
    assert(path.push(first) =~= full.take(pos + 1));
    let n: usize = branch.children.len();
    let mut i: usize = 0;
    while i < n && branch.children[i].matches[0] != first
        invariant
            n == branch.children@.len(),
            i <= n,
            *branch == *old(branch),
            firsts == next_bytes(entries, path),
            is_level(branch.children@, entries, case_sensitive, path),
            forall|j: int| 0 <= j < i ==> firsts[j] != first,
        decreases n - i,
    {
        assert(is_node(branch.children@[i as int], entries, case_sensitive, path.push(firsts[i as int])));
        i = i + 1;
    }
    if i < n {
        assert(is_node(branch.children@[i as int], entries, case_sensitive, path.push(firsts[i as int])));
        assert(firsts[i as int] == first);
        let ghost before = branch.children@;
        let fresh = insert(&mut branch.children[i], key, pos + 1, value, case_sensitive, Ghost(entries));
        proof {
            if fresh {
                assert(branch.children@ =~= before.update(i as int, branch.children@[i as int]));
                assert(next_bytes(grown, path) == firsts);
                assert forall|j: int| 0 <= j < branch.children@.len() implies is_node(
                    #[trigger] branch.children@[j],
                    grown,
                    case_sensitive,
                    path.push(firsts[j]),
                ) by {
                    if j != i {
                        assert(branch.children@[j] == before[j]);
                        lemma_prefix_step(full, path, firsts[j]);
                        lemma_node_unaffected(
                            before[j],
                            entries,
                            entry,
                            case_sensitive,
                            path.push(firsts[j]),
                        );
                    }
                }
            }
        }
        fresh
    } else {
        let mut subbranch = ParseBranch::new();
        subbranch.matches.push(first);
        if !case_sensitive {
            let second: u8 = to_lower(c);
            if first != second {
                subbranch.matches.push(second);
            }
        }
        assert(subbranch.matches@ =~= alternatives(first, case_sensitive));
        let ghost before = branch.children@;
        proof {
            lemma_next_bytes_contains(entries, path, first);
            assert(!firsts.contains(first));
            assert forall|k: int| 0 <= k < entries.len() implies !path.push(first).is_prefix_of(
                (#[trigger] entries[k]).0,
            ) by {
                lemma_prefix_step(entries[k].0, path, first);
            }
            lemma_unused_path(entries, path.push(first));
        }
        branch.children.push(subbranch);
        let fresh = insert(&mut branch.children[n], key, pos + 1, value, case_sensitive, Ghost(entries));
        proof {
            if fresh {
                assert(next_bytes(grown, path) == firsts.push(first));
                assert forall|j: int| 0 <= j < branch.children@.len() implies is_node(
                    #[trigger] branch.children@[j],
                    grown,
                    case_sensitive,
                    path.push(firsts.push(first)[j]),
                ) by {
                    if j != n {
                        assert(branch.children@[j] == before[j]);
                        lemma_prefix_step(full, path, firsts[j]);
                        lemma_node_unaffected(
                            before[j],
                            entries,
                            entry,
                            case_sensitive,
                            path.push(firsts[j]),
                        );
                    }
                }
            }
        }
        fresh
    }
}

/// Whether two keys are filed under the same bytes.
pub fn same_key(a: &[u8], b: &[u8], case_sensitive: bool) -> (same: bool)
    ensures
        same == (fold_key(a@, case_sensitive) == fold_key(b@, case_sensitive)),
{
    let ghost fa = fold_key(a@, case_sensitive);
    let ghost fb = fold_key(b@, case_sensitive);
    if a.len() != b.len() {
        assert(fa.len() != fb.len());
        return false;
    }
    let n: usize = a.len();
    let mut i: usize = 0;
    while i < n
        invariant
            n == a@.len(),
            n == b@.len(),
            i <= n,
            fa == fold_key(a@, case_sensitive),
            fb == fold_key(b@, case_sensitive),
            forall|k: int| 0 <= k < i ==> fa[k] == fb[k],
        decreases n - i,
    {
        let x: u8 = if case_sensitive {
            a[i]
        } else {
            to_upper(a[i])
        };
        let y: u8 = if case_sensitive {
            b[i]
        } else {
            to_upper(b[i])
        };
        if x != y {
            assert(fa[i as int] != fb[i as int]);
            return false;
        }
        i = i + 1;
    }
    assert(fa =~= fb);
    true
}

/// The place of the first literal before `upto` that has the key of the
/// literal at `upto`.
fn first_with_key(options: &[(&str, &str)], upto: usize, case_sensitive: bool) -> (first: usize)
    requires
        upto < options@.len(),
        exists|i: int|
            0 <= i < upto && (#[trigger] entries_of(options@, case_sensitive)[i]).0 == entries_of(
                options@,
                case_sensitive,
            )[upto as int].0,
    ensures
        first < upto,
        entries_of(options@, case_sensitive)[first as int].0 == entries_of(
            options@,
            case_sensitive,
        )[upto as int].0,
{
    let ghost all = entries_of(options@, case_sensitive);
    let wanted = options[upto].0.as_bytes();
    let mut j: usize = 0;
    while j < upto
        invariant
            j <= upto,
            upto < options@.len(),
            all == entries_of(options@, case_sensitive),
            wanted@ == options@[upto as int].0.spec_bytes(),
            forall|k: int| 0 <= k < j ==> (#[trigger] all[k]).0 != all[upto as int].0,
        decreases upto - j,
    {
        if same_key(options[j].0.as_bytes(), wanted, case_sensitive) {
            return j;
        }
        j = j + 1;
    }
    proof {
        let i = choose|i: int| 0 <= i < upto && (#[trigger] all[i]).0 == all[upto as int].0;
        assert(all[i].0 != all[upto as int].0);
    }
    0
}

/// Folds a table of literals into its prefix tree and returns the nodes of
/// the first byte.
///
/// `options` holds each literal's key and value. Without `case_sensitive` a
/// key stands for every spelling of it in upper and lower case. A table in
/// which two literals have the same key has no tree: the error names the
/// first literal that repeats a key and the literal it repeats. A literal
/// with an empty key has no node, so its value is not in the tree.
pub fn branchify(options: &[(&str, &str)], case_sensitive: bool) -> (result: Result<
    Vec<ParseBranch>,
    DuplicateKey,
>)
    ensures
        result is Err <==> has_duplicate(entries_of(options@, case_sensitive)),
        match result {
            Ok(roots) => {
                &&& !has_duplicate(entries_of(options@, case_sensitive))
                &&& is_level(
                    roots@,
                    entries_of(options@, case_sensitive),
                    case_sensitive,
                    Seq::<u8>::empty(),
                )
            },
            Err(duplicate) => is_first_duplicate(
                entries_of(options@, case_sensitive),
                duplicate.first as int,
                duplicate.second as int,
            ),
        },
{
    let ghost all = entries_of(options@, case_sensitive);
    let ghost top = Seq::<u8>::empty();
    let mut root = ParseBranch::new();
    let n: usize = options.len();
    let mut idx: usize = 0;
    assert(all.take(0) =~= Seq::<(Seq<u8>, Seq<char>)>::empty());
    while idx < n
        invariant
            n == options@.len(),
            idx <= n,
            all == entries_of(options@, case_sensitive),
            top == Seq::<u8>::empty(),
            !has_duplicate(all.take(idx as int)),
            is_level(root.children@, all.take(idx as int), case_sensitive, top),
            value_view(root.result) == value_at(all.take(idx as int), top),
        decreases n - idx,
    {
        let (key, value) = options[idx];
        let bytes = key.as_bytes();
        let ghost seen = all.take(idx as int);
        let ghost full = fold_key(bytes@, case_sensitive);
        assert(all[idx as int] == (full, value@));
        assert(full.take(0) =~= top);
        let fresh = insert(&mut root, bytes, 0, value, case_sensitive, Ghost(seen));
        proof {
            lemma_value_at_some(seen, full);
        }
        if !fresh {
            proof {
                let i = choose|i: int| 0 <= i < seen.len() && (#[trigger] seen[i]).0 == full;
                assert(all[i].0 == all[idx as int].0);
            }
            let first = first_with_key(options, idx, case_sensitive);
            assert(all[first as int].0 == all[idx as int].0);
            return Err(DuplicateKey { first, second: idx });
        }
        proof {
            let next = all.take(idx + 1);
            assert(next =~= seen.push(all[idx as int]));
            if has_duplicate(next) {
                let (i, j) = choose|i: int, j: int|
                    0 <= i < j < next.len() && #[trigger] next[i].0 == #[trigger] next[j].0;
                if j < idx {
                    assert(seen[i].0 == seen[j].0);
                } else {
                    assert(seen[i].0 == full);
                }
            }
        }
        idx = idx + 1;
    }
    assert(all.take(n as int) =~= all);
    Ok(root.children)
}

impl ParseBranch {
    /// A node with no match byte, no value and no child.
    pub fn new() -> (branch: ParseBranch)
        ensures
            branch.matches@ == Seq::<u8>::empty(),
            branch.result is None,
            branch.children@ == Seq::<ParseBranch>::empty(),
    {
        ParseBranch { matches: Vec::new(), result: None, children: Vec::new() }
    }
}

} // verus!
