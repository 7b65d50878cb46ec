//! Reading and moving the revision that `flake.nix` and `flake.lock` pin.
use crate::error::{join2, join3, join5, join6, Error};
use crate::flakeref::{append_rev, flake_ref_rev_pattern, spec_append_rev, spec_flake_ref_rev_pattern};
use crate::pattern::{compile, named_capture, regex_error, regex_named_capture};
use crate::text::{copy_string, replace_all, replace_all_text, replace_first, replace_first_text, texts};
use crate::textmap::{lookup, TextMap};
use vstd::prelude::*;

verus! {

/// The regular expression that finds the pinned URL of an input, in either
/// `input.url = "..."` or `input = { url = "..."` form.
pub open spec fn rev_matcher(input_name: Seq<char>, flake_ref: Seq<char>) -> Seq<char> {
    replace_all(input_name, "."@, "\\."@) + "(?:\\.url|\\s*=\\s*\\{\\s*url)\\s*=\\s*\""@
        + spec_flake_ref_rev_pattern(flake_ref) + "\""@
}

/// The revision that `flake.nix` pins an input to, or why it is not known.
pub open spec fn spec_read_current_rev(content: Seq<char>, input_name: Seq<char>, flake_ref: Seq<char>) -> Result<Seq<char>, Seq<char>> {
    let pattern = rev_matcher(input_name, flake_ref);
    match regex_error(pattern) {
        Some(e) => Err("failed to build revision matcher for input '"@ + input_name + "' and flake ref '"@
            + flake_ref + "': "@ + e),
        None => match regex_named_capture(pattern, content, "rev"@) {
            Some(rev) => Ok(rev),
            None => Err("could not find pinned URL for input '"@ + input_name + "' with flake ref '"@ + flake_ref
                + "' in flake.nix"@),
        },
    }
}

/// Reads the revision that `flake.nix` pins an input to.
pub fn read_current_rev(flake_nix_content: &str, input_name: &str, flake_ref: &str) -> (r: Result<String, Error>)
    ensures
        match r {
            Ok(rev) => spec_read_current_rev(flake_nix_content@, input_name@, flake_ref@) == Ok::<Seq<char>, Seq<char>>(rev@),
            Err(e) => e matches Error::FlakeNix(m)
                && spec_read_current_rev(flake_nix_content@, input_name@, flake_ref@) == Err::<Seq<char>, Seq<char>>(m@),
        },
{
    proof {
        reveal_strlit(".");
    }
    let rev_pattern = flake_ref_rev_pattern(flake_ref);
    let escaped_input = replace_all_text(input_name, ".", "\\.");
    let pattern = join5(
        escaped_input.as_str(),
        "(?:\\.url|\\s*=\\s*\\{\\s*url)\\s*=\\s*\"",
        rev_pattern.as_str(),
        "\"",
        "",
    );
    proof {
        reveal_strlit("");
        assert(pattern@ =~= rev_matcher(input_name@, flake_ref@));
    }
    let re = match compile(pattern.as_str()) {
        Ok(re) => re,
        Err(e) => {
            let m = join6("failed to build revision matcher for input '", input_name, "' and flake ref '", flake_ref, "': ", e.as_str());
            return Err(Error::FlakeNix(m));
        },
    };
    match named_capture(&re, flake_nix_content, "rev") {
        Some(rev) => Ok(rev),
        None => Err(Error::FlakeNix(join5(
            "could not find pinned URL for input '",
            input_name,
            "' with flake ref '",
            flake_ref,
            "' in flake.nix",
        ))),
    }
}

/// The `flake.nix` content with the first occurrence of the input's old
/// pinned URL replaced by the new one.
pub open spec fn spec_replace_rev(content: Seq<char>, flake_ref: Seq<char>, old_rev: Seq<char>, new_rev: Seq<char>) -> Seq<char> {
    replace_first(content, spec_append_rev(flake_ref, old_rev), spec_append_rev(flake_ref, new_rev))
}

/// Replaces the pinned revision in `flake.nix` content.
pub fn replace_rev(flake_nix_content: &str, flake_ref: &str, old_rev: &str, new_rev: &str) -> (r: String)
    ensures
        r@ == spec_replace_rev(flake_nix_content@, flake_ref@, old_rev@, new_rev@),
{
    let old_url = append_rev(flake_ref, old_rev);
    let new_url = append_rev(flake_ref, new_rev);
    replace_first_text(flake_nix_content, old_url.as_str(), new_url.as_str())
}

/// What the library reads of a `flake.lock`: the node each root input
/// names, and the locked revision of each node that has one.
#[derive(Debug)]
pub struct LockFile {
    /// Root input name to node name (inputs whose value is a node name).
    pub root_inputs: TextMap<String>,
    /// Node name to its `locked.rev` (nodes whose locked revision is text).
    pub locked_revs: TextMap<String>,
}

/// The locked revision of a top-level input, or why it is not known.
pub open spec fn spec_locked_rev(
    root_inputs: Seq<(Seq<char>, String)>,
    locked_revs: Seq<(Seq<char>, String)>,
    input_name: Seq<char>,
) -> Result<Seq<char>, Seq<char>> {
    match lookup(root_inputs, input_name) {
        None => Err("lock file has no root input '"@ + input_name + "'"@),
        Some(node) => match lookup(locked_revs, node@) {
            Some(rev) => Ok(rev@),
            None => Err("lock file input '"@ + input_name + "' has no locked revision"@),
        },
    }
}

/// Reads the locked revision of a top-level input.
pub fn read_locked_rev(lock: &LockFile, input_name: &str) -> (r: Result<String, Error>)
    ensures
        match r {
            Ok(rev) => spec_locked_rev(lock.root_inputs@, lock.locked_revs@, input_name@) == Ok::<Seq<char>, Seq<char>>(rev@),
            Err(e) => e matches Error::FlakeNix(m)
                && spec_locked_rev(lock.root_inputs@, lock.locked_revs@, input_name@) == Err::<Seq<char>, Seq<char>>(m@),
        },
{
    let node = match lock.root_inputs.get(input_name) {
        Some(node) => node,
        None => {
            return Err(Error::FlakeNix(join3("lock file has no root input '", input_name, "'")));
        },
    };
    match lock.locked_revs.get(node.as_str()) {
        Some(rev) => Ok(copy_string(rev)),
        None => Err(Error::FlakeNix(join3("lock file input '", input_name, "' has no locked revision"))),
    }
}

/// The nodes that a lock node's inputs refer to.
pub open spec fn children_of(graph: Seq<(Seq<char>, Vec<String>)>, n: Seq<char>) -> Seq<Seq<char>> {
    match lookup(graph, n) {
        Some(v) => texts(v@),
        None => seq![],
    }
}

/// A node of the list refers to `x`.
pub open spec fn referred_by(graph: Seq<(Seq<char>, Vec<String>)>, t: Seq<Seq<char>>, x: Seq<char>) -> bool {
    exists|j: int| 0 <= j < t.len() && #[trigger] children_of(graph, t[j]).contains(x)
}

/// The lock has a node of this name.
pub open spec fn in_graph(graph: Seq<(Seq<char>, Vec<String>)>, n: Seq<char>) -> bool {
    lookup(graph, n) is Some
}

/// Every node after the first is referred to by an earlier one: the nodes
/// are reachable from the first.
pub open spec fn is_trail(graph: Seq<(Seq<char>, Vec<String>)>, start: Seq<char>, t: Seq<Seq<char>>) -> bool {
    &&& t.len() > 0 ==> t[0] == start
    &&& forall|i: int| 1 <= i < t.len() ==> #[trigger] has_parent(graph, t, i)
}

/// An earlier node of the list refers to the node at `i`.
pub open spec fn has_parent(graph: Seq<(Seq<char>, Vec<String>)>, t: Seq<Seq<char>>, i: int) -> bool {
    exists|j: int| 0 <= j < i && #[trigger] children_of(graph, t[j]).contains(t[i])
}

/// Every node of the list is in the lock.
pub open spec fn all_in_graph(graph: Seq<(Seq<char>, Vec<String>)>, t: Seq<Seq<char>>) -> bool {
    forall|i: int| 0 <= i < t.len() ==> in_graph(graph, #[trigger] t[i])
}

/// Every node that a node of the list refers to is in the list.
pub open spec fn closed_under_children(graph: Seq<(Seq<char>, Vec<String>)>, t: Seq<Seq<char>>) -> bool {
    forall|i: int, c: Seq<char>| 0 <= i < t.len() && #[trigger] children_of(graph, t[i]).contains(c) ==> t.contains(c)
}

proof fn lemma_lookup_has_key<V>(s: Seq<(Seq<char>, V)>, k: Seq<char>)
    ensures
        lookup(s, k) is Some ==> crate::textmap::has_key(s, k),
    decreases s.len(),
{
    if s.len() > 0 && s.last().0 != k {
        lemma_lookup_has_key(s.drop_last(), k);
        if lookup(s, k) is Some {
            let j = choose|j: int| 0 <= j < s.drop_last().len() && #[trigger] s.drop_last()[j].0 == k;
            assert(s[j].0 == k);
        }
    } else if s.len() > 0 {
        assert(s[s.len() - 1].0 == k);
    }
}

/// A list of distinct nodes of the lock is no longer than the lock.
proof fn lemma_distinct_nodes_bounded(graph: Seq<(Seq<char>, Vec<String>)>, t: Seq<Seq<char>>)
    requires
        crate::textmap::keys_increasing(graph),
        t.no_duplicates(),
        all_in_graph(graph, t),
    ensures
        t.len() <= graph.len(),
{
    let keys = graph.map_values(|e: (Seq<char>, Vec<String>)| e.0);
    assert forall|x: Seq<char>| t.to_set().contains(x) implies keys.to_set().contains(x) by {
        assert(t.contains(x));
        let i = choose|i: int| 0 <= i < t.len() && t[i] == x;
        assert(in_graph(graph, t[i]));
        lemma_lookup_has_key(graph, x);
        let j = choose|j: int| 0 <= j < graph.len() && #[trigger] graph[j].0 == x;
        assert(keys[j] == x);
        assert(keys.contains(x));
    }
    t.unique_seq_to_set();
    keys.lemma_cardinality_of_set();
    vstd::seq_lib::seq_to_set_is_finite(keys);
    vstd::set_lib::lemma_len_subset(t.to_set(), keys.to_set());
}

/// Walks the lock's nodes breadth first from `start`: every node reachable
/// through inputs, each once, or the first reachable name that the lock has
/// no node for.
pub fn reachable_nodes(graph: &TextMap<Vec<String>>, start: &str) -> (r: Result<Vec<String>, String>)
    ensures
        match r {
            Ok(nodes) => {
                &&& texts(nodes@).len() > 0
                &&& is_trail(graph@, start@, texts(nodes@))
                &&& texts(nodes@).no_duplicates()
                &&& all_in_graph(graph@, texts(nodes@))
                &&& closed_under_children(graph@, texts(nodes@))
            },
            Err(missing) => !in_graph(graph@, missing@) && exists|t: Seq<Seq<char>>|
                #[trigger] is_trail(graph@, start@, t) && (missing@ == start@ || referred_by(graph@, t, missing@)),
        },
{
    proof {
        use_type_invariant(graph);
    }
    let ghost g = graph@;
    let mut order: Vec<String> = Vec::new();
    let mut seen: TextMap<()> = TextMap::new();
    let mut queue: Vec<String> = Vec::new();
    queue.push(crate::text::owned(start));
    let mut head: usize = 0;
    loop
        invariant
            g == graph@,
            crate::textmap::keys_increasing(g),
            head <= queue@.len(),
            is_trail(g, start@, texts(order@)),
            texts(order@).no_duplicates(),
            all_in_graph(g, texts(order@)),
            forall|k: Seq<char>| lookup(seen@, k) is Some <==> texts(order@).contains(k),
            queue@.len() > 0 && texts(queue@)[0] == start@,
            forall|q: int| 1 <= q < queue@.len() ==> referred_by(g, texts(order@), #[trigger] texts(queue@)[q]),
            forall|q: int| 0 <= q < head ==> texts(order@).contains(#[trigger] texts(queue@)[q]),
            forall|i: int, c: Seq<char>| 0 <= i < texts(order@).len() && #[trigger] children_of(g, texts(order@)[i]).contains(c)
                ==> texts(queue@).contains(c),
        decreases g.len() - texts(order@).len(), queue@.len() - head,
    {
        let ghost ord = texts(order@);
        let ghost qs = texts(queue@);
        proof {
            lemma_distinct_nodes_bounded(g, ord);
        }
        if head == queue.len() {
            proof {
                assert(ord.contains(qs[0]));
                assert forall|i: int, c: Seq<char>| 0 <= i < ord.len() && #[trigger] children_of(g, ord[i]).contains(c)
                    implies ord.contains(c) by {
                    assert(qs.contains(c));
                    let q = choose|q: int| 0 <= q < qs.len() && qs[q] == c;
                    assert(ord.contains(qs[q]));
                }
            }
            return Ok(order);
        }
        let name = copy_string(&queue[head]);
        assert(name@ == qs[head as int]);
        head = head + 1;
        if seen.get(name.as_str()).is_some() {
            assert(ord.contains(name@));
            continue;
        }
        assert(!ord.contains(name@));
        match graph.get(name.as_str()) {
            None => {
                proof {
                    if head - 1 > 0 {
                        assert(referred_by(g, ord, qs[head - 1]));
                    }
                    assert(is_trail(g, start@, ord));
                }
                return Err(name);
            },
            Some(children) => {
                proof {
                    use_type_invariant(&seen);
                    crate::textmap::lemma_lookup_store(seen@, name@, ());
                }
                seen.insert(copy_string(&name), ());
                order.push(name);
                let ghost nord = texts(order@);
                assert(nord =~= ord.push(qs[head - 1]));
                let mut k: usize = 0;
                while k < children.len()
                    invariant
                        k <= children@.len(),
                        queue@.len() == qs.len() + k,
                        forall|q: int| 0 <= q < qs.len() ==> #[trigger] texts(queue@)[q] == qs[q],
                        forall|m: int| 0 <= m < k ==> texts(queue@)[qs.len() + m] == #[trigger] texts(children@)[m],
                    decreases children@.len() - k,
                {
                    let ghost before = queue@;
                    queue.push(copy_string(&children[k]));
                    assert(texts(queue@)[qs.len() + k] == texts(children@)[k as int]);
                    assert forall|q: int| 0 <= q < qs.len() implies #[trigger] texts(queue@)[q] == qs[q] by {
                        assert(queue@[q] == before[q]);
                        assert(texts(before)[q] == qs[q]);
                    }
                    assert forall|m: int| 0 <= m < k + 1 implies texts(queue@)[qs.len() + m] == #[trigger] texts(children@)[m] by {
                        if m < k {
                            assert(queue@[qs.len() + m] == before[qs.len() + m]);
                            assert(texts(before)[qs.len() + m] == texts(children@)[m]);
                        }
                    }
                    k = k + 1;
                }
                proof {
                    let nqs = texts(queue@);
                    let name_v = qs[head - 1];
                    assert(children_of(g, name_v) == texts(children@));
                    assert(nord[ord.len() as int] == name_v);
                    // The new node is reachable.
                    if ord.len() > 0 {
                        assert(ord[0] == start@);
                        assert(name_v != start@);
                        assert(head - 1 > 0);
                    }
                    if head - 1 > 0 {
                        assert(referred_by(g, ord, name_v));
                        let j = choose|j: int| 0 <= j < ord.len() && #[trigger] children_of(g, ord[j]).contains(name_v);
                        assert(nord[j] == ord[j]);
                        assert(has_parent(g, nord, ord.len() as int));
                    } else {
                        assert(name_v == start@);
                        assert(ord.len() == 0);
                    }
                    assert forall|i: int| 1 <= i < nord.len() implies #[trigger] has_parent(g, nord, i) by {
                        if i < ord.len() {
                            assert(has_parent(g, ord, i));
                            let j = choose|j: int| 0 <= j < i && #[trigger] children_of(g, ord[j]).contains(ord[i]);
                            assert(nord[j] == ord[j] && nord[i] == ord[i]);
                        }
                    }
                    assert(is_trail(g, start@, nord));
                    assert forall|a: int, b: int| 0 <= a < nord.len() && 0 <= b < nord.len() && a != b implies nord[a] != nord[b] by {
                        if a == ord.len() as int {
                            assert(!ord.contains(name_v));
                            assert(nord[b] == ord[b]);
                        } else if b == ord.len() as int {
                            assert(nord[a] == ord[a]);
                        }
                    }
                    assert forall|i: int| 0 <= i < nord.len() implies in_graph(g, #[trigger] nord[i]) by {
                        if i < ord.len() {
                            assert(nord[i] == ord[i]);
                        }
                    }
                    assert forall|x: Seq<char>| lookup(seen@, x) is Some <==> nord.contains(x) by {
                        if x == name_v {
                            assert(nord[ord.len() as int] == x);
                        } else {
                            if ord.contains(x) {
                                let i = choose|i: int| 0 <= i < ord.len() && ord[i] == x;
                                assert(nord[i] == x);
                            }
                            if nord.contains(x) {
                                let i = choose|i: int| 0 <= i < nord.len() && nord[i] == x;
                                assert(ord[i] == x);
                            }
                        }
                    }
                    assert forall|q: int| 1 <= q < nqs.len() implies referred_by(g, nord, #[trigger] nqs[q]) by {
                        if q < qs.len() {
                            assert(nqs[q] == qs[q]);
                            assert(referred_by(g, ord, qs[q]));
                            let j = choose|j: int| 0 <= j < ord.len() && #[trigger] children_of(g, ord[j]).contains(qs[q]);
                            assert(nord[j] == ord[j]);
                        } else {
                            let m = q - qs.len();
                            assert(nqs[qs.len() + m] == texts(children@)[m]);
                            assert(children_of(g, nord[ord.len() as int]).contains(nqs[q]));
                        }
                    }
                    assert forall|q: int| 0 <= q < head implies nord.contains(#[trigger] nqs[q]) by {
                        assert(nqs[q] == qs[q]);
                        if q < head - 1 {
                            assert(ord.contains(qs[q]));
                            let i = choose|i: int| 0 <= i < ord.len() && ord[i] == qs[q];
                            assert(nord[i] == qs[q]);
                        } else {
                            assert(nord[ord.len() as int] == qs[q]);
                        }
                    }
                    assert forall|i: int, c: Seq<char>| 0 <= i < nord.len() && #[trigger] children_of(g, nord[i]).contains(c)
                        implies nqs.contains(c) by {
                        if i < ord.len() {
                            assert(nord[i] == ord[i]);
                            assert(qs.contains(c));
                            let q = choose|q: int| 0 <= q < qs.len() && qs[q] == c;
                            assert(nqs[q] == c);
                        } else {
                            let m = choose|m: int| 0 <= m < texts(children@).len() && texts(children@)[m] == c;
                            assert(nqs[qs.len() + m] == c);
                        }
                    }
                    lemma_distinct_nodes_bounded(g, nord);
                }
            },
        }
    }
}

/// How the temporary lock's root names the updated input.
#[derive(Debug)]
pub enum UpdatedInput {
    /// The root has no such input.
    Missing,
    /// The input is not a node name (it follows another input).
    NotNodeName,
    /// The node that the input is locked to.
    Node(String),
}

/// What the library reads of the baseline lock and of the temporary lock
/// that `nix flake lock` wrote for one input.
#[derive(Debug)]
pub struct LockMerge {
    pub updated_input: UpdatedInput,
    pub baseline_has_root_inputs: bool,
    pub baseline_has_nodes: bool,
    /// The temporary lock's nodes with the node names their inputs refer
    /// to; none when it has no nodes.
    pub updated_nodes: Option<TextMap<Vec<String>>>,
    /// The temporary lock's nodes that the baseline lacks or holds
    /// differently.
    pub changed: TextMap<()>,
}

/// How to merge the update into the baseline lock: point the root input at
/// `node`, and copy the changed nodes among those `reachable` from it.
#[derive(Debug)]
pub struct LockMergePlan {
    pub node: String,
    pub reachable: Vec<String>,
    pub copy: Vec<String>,
}

/// The nodes of `t` that are changed, in order.
pub open spec fn changed_nodes(t: Seq<Seq<char>>, changed: Seq<(Seq<char>, ())>) -> Seq<Seq<char>>
    decreases t.len(),
{
    if t.len() == 0 {
        seq![]
    } else if lookup(changed, t.last()) is Some {
        changed_nodes(t.drop_last(), changed).push(t.last())
    } else {
        changed_nodes(t.drop_last(), changed)
    }
}

/// The error that a lock merge fails with before any node is walked.
pub open spec fn lock_merge_precheck(input_name: Seq<char>, m: LockMerge) -> Option<Seq<char>> {
    match m.updated_input {
        UpdatedInput::Missing => Some("temporary lock has no root input '"@ + input_name + "'"@),
        UpdatedInput::NotNodeName => Some("temporary lock input '"@ + input_name + "' is not a node name"@),
        UpdatedInput::Node(_) => if !m.baseline_has_root_inputs {
            Some("baseline lock has no root inputs"@)
        } else if !m.baseline_has_nodes {
            Some("baseline lock has no nodes"@)
        } else if m.updated_nodes is None {
            Some("temporary lock has no nodes"@)
        } else {
            None
        },
    }
}

/// Plans merging a one-input lock update into the baseline lock: the root
/// input takes the updated node, and every node reachable from it that
/// changed is copied; nothing else of the baseline changes.
pub fn lock_update_plan(input_name: &str, m: &LockMerge) -> (r: Result<LockMergePlan, Error>)
    ensures
        match lock_merge_precheck(input_name@, *m) {
            Some(msg) => r matches Err(e) && e matches Error::FlakeNix(x) && x@ == msg,
            None => match r {
                Ok(plan) => {
                    let graph = m.updated_nodes->0@;
                    let nodes = texts(plan.reachable@);
                    &&& m.updated_input matches UpdatedInput::Node(n) && plan.node@ == n@
                    &&& nodes.len() > 0
                    &&& is_trail(graph, plan.node@, nodes)
                    &&& nodes.no_duplicates()
                    &&& all_in_graph(graph, nodes)
                    &&& closed_under_children(graph, nodes)
                    &&& texts(plan.copy@) == changed_nodes(nodes, m.changed@)
                },
                Err(e) => m.updated_input matches UpdatedInput::Node(n) && (e matches Error::FlakeNix(x)
                    && exists|missing: Seq<char>| x@ == "temporary lock is missing reachable node '"@ + missing + "'"@
                        && !in_graph(m.updated_nodes->0@, missing)
                        && exists|t: Seq<Seq<char>>| #[trigger] is_trail(m.updated_nodes->0@, n@, t)
                            && (missing == n@ || referred_by(m.updated_nodes->0@, t, missing))),
            },
        },
{
    let node = match &m.updated_input {
        UpdatedInput::Missing => {
            return Err(Error::FlakeNix(join3("temporary lock has no root input '", input_name, "'")));
        },
        UpdatedInput::NotNodeName => {
            return Err(Error::FlakeNix(join3("temporary lock input '", input_name, "' is not a node name")));
        },
        UpdatedInput::Node(n) => n,
    };
    if !m.baseline_has_root_inputs {
        return Err(Error::FlakeNix(crate::text::owned("baseline lock has no root inputs")));
    }
    if !m.baseline_has_nodes {
        return Err(Error::FlakeNix(crate::text::owned("baseline lock has no nodes")));
    }
    let graph = match &m.updated_nodes {
        Some(g) => g,
        None => {
            return Err(Error::FlakeNix(crate::text::owned("temporary lock has no nodes")));
        },
    };
    let reachable = match reachable_nodes(graph, node.as_str()) {
        Ok(nodes) => nodes,
        Err(missing) => {
            let msg = join3("temporary lock is missing reachable node '", missing.as_str(), "'");
            return Err(Error::FlakeNix(msg));
        },
    };
    let ghost nodes = texts(reachable@);
    let mut copy: Vec<String> = Vec::new();
    let mut i: usize = 0;
    while i < reachable.len()
        invariant
            i <= reachable@.len(),
            nodes == texts(reachable@),
            texts(copy@) == changed_nodes(nodes.subrange(0, i as int), m.changed@),
        decreases reachable@.len() - i,
    {
        assert(nodes.subrange(0, i + 1).drop_last() =~= nodes.subrange(0, i as int));
        assert(nodes.subrange(0, i + 1).last() == reachable@[i as int]@);
        if m.changed.get(reachable[i].as_str()).is_some() {
            let ghost before = texts(copy@);
            copy.push(copy_string(&reachable[i]));
            assert(texts(copy@) =~= before.push(reachable@[i as int]@));
        }
        i = i + 1;
    }
    assert(nodes.subrange(0, i as int) =~= nodes);
    Ok(LockMergePlan { node: copy_string(node), reachable, copy })
}

} // verus!
