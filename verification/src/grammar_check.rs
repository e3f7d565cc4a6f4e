//! The shape a grammar's YAML must have before `syntect` loads it: grammar
//! texts on which its loader would panic or recurse without end are refused
//! up front.

use vstd::prelude::*;
use crate::strutil::{bytes_eq, bytes_of, find_bytes, find_from};
use yaml_rust::{Yaml, YamlLoader};

verus! {

#[verifier::external_type_specification]
#[verifier::external_body]
pub struct ExYaml(Yaml);

/// A YAML value by plain values: a string scalar, a sequence, a mapping as
/// its entries in order, or any other value (number, boolean, null, ...).
pub enum YamlNode {
    Text(String),
    List(Vec<YamlNode>),
    Mapping(Vec<(YamlNode, YamlNode)>),
    Other,
}

/// The first document that `yaml_rust::YamlLoader::load_from_str` reads from
/// `source`, or `None` when the text is no YAML or holds no document.
pub uninterp spec fn yaml_document(source: Seq<char>) -> Option<Yaml>;

/// A YAML value as plain values.
pub uninterp spec fn yaml_plain(y: Yaml) -> YamlNode;

/// `YamlLoader::load_from_str`: the first document of the text.
#[verifier::external_body]
fn load_yaml(source: &str) -> (r: Option<Yaml>)
    ensures
        r == yaml_document(source@),
{
    YamlLoader::load_from_str(source).ok().and_then(|docs| docs.into_iter().next())
}

/// A YAML value as plain values: strings, sequences and mappings (entries
/// in the map's order) kept, every other value as `Other`.
#[verifier::external_body]
fn yaml_node(y: &Yaml) -> (r: YamlNode)
    ensures
        r == yaml_plain(*y),
{
    match y {
        Yaml::String(s) => YamlNode::Text(s.clone()),
        Yaml::Array(v) => YamlNode::List(v.iter().map(yaml_node).collect()),
        Yaml::Hash(h) => YamlNode::Mapping(h.iter().map(|(k, v)| (yaml_node(k), yaml_node(v))).collect()),
        _ => YamlNode::Other,
    }
}

/// An `escape` key of a mapping has a string value.
pub open spec fn entry_ok(e: (YamlNode, YamlNode)) -> bool {
    (e.0 matches YamlNode::Text(k) && bytes_of(k@) == bytes_of("escape"@)) ==> e.1 is Text
}

/// The sequence starts with an empty sequence.
pub open spec fn leads_with_empty_list(s: Seq<YamlNode>) -> bool {
    s.len() > 0 && (s[0] matches YamlNode::List(w) && w@.len() == 0)
}

/// No sequence in `n` starts with an empty sequence, and every `escape` key
/// has a string value.
pub open spec fn tree_ok(n: YamlNode) -> bool
    decreases n,
{
    match n {
        YamlNode::List(v) => !leads_with_empty_list(v@) && list_ok(v@),
        YamlNode::Mapping(es) => entries_ok(es@),
        _ => true,
    }
}

pub open spec fn list_ok(s: Seq<YamlNode>) -> bool
    decreases s,
{
    if s.len() == 0 {
        true
    } else {
        tree_ok(s.last()) && list_ok(s.drop_last())
    }
}

pub open spec fn entries_ok(s: Seq<(YamlNode, YamlNode)>) -> bool
    decreases s,
{
    if s.len() == 0 {
        true
    } else {
        entry_ok(s.last()) && tree_ok(s.last().0) && tree_ok(s.last().1) && entries_ok(s.drop_last())
    }
}

proof fn lemma_list_ok(s: Seq<YamlNode>)
    ensures
        list_ok(s) <==> forall|i: int| 0 <= i < s.len() ==> tree_ok(#[trigger] s[i]),
    decreases s.len(),
{
    if s.len() > 0 {
        lemma_list_ok(s.drop_last());
        assert forall|i: int| 0 <= i < s.len() - 1 implies s.drop_last()[i] == s[i] by {}
        if forall|i: int| 0 <= i < s.len() ==> tree_ok(#[trigger] s[i]) {
            assert(tree_ok(s[s.len() - 1]));
            assert forall|i: int| 0 <= i < s.drop_last().len() implies tree_ok(#[trigger] s.drop_last()[i]) by {
                assert(tree_ok(s[i]));
            }
        }
        if list_ok(s) {
            assert forall|i: int| 0 <= i < s.len() implies tree_ok(#[trigger] s[i]) by {
                if i < s.len() - 1 {
                    assert(tree_ok(s.drop_last()[i]));
                }
            }
        }
    }
}

/// Every entry of `s` passes `entry_ok` and both its key and its value pass
/// `tree_ok`.
pub open spec fn each_entry_ok(s: Seq<(YamlNode, YamlNode)>) -> bool {
    forall|i: int| 0 <= i < s.len() ==> entry_ok(#[trigger] s[i]) && tree_ok(s[i].0) && tree_ok(s[i].1)
}

proof fn lemma_entries_ok(s: Seq<(YamlNode, YamlNode)>)
    ensures
        entries_ok(s) <==> each_entry_ok(s),
    decreases s.len(),
{
    if s.len() > 0 {
        lemma_entries_ok(s.drop_last());
        if each_entry_ok(s) {
            assert(entry_ok(s[s.len() - 1]));
            assert forall|i: int| 0 <= i < s.drop_last().len() implies entry_ok(#[trigger] s.drop_last()[i])
                && tree_ok(s.drop_last()[i].0) && tree_ok(s.drop_last()[i].1) by {
                assert(entry_ok(s[i]));
            }
        }
        if entries_ok(s) {
            assert forall|i: int| 0 <= i < s.len() implies entry_ok(#[trigger] s[i]) && tree_ok(s[i].0)
                && tree_ok(s[i].1) by {
                if i < s.len() - 1 {
                    assert(entry_ok(s.drop_last()[i]));
                }
            }
        }
    }
}

fn is_text(s: &String, t: &str) -> (r: bool)
    ensures
        r == (bytes_of(s@) == bytes_of(t@)),
{
    bytes_eq(s.as_str().as_bytes(), t.as_bytes())
}

/// Whether no sequence of `n` starts with an empty sequence and every
/// `escape` key of `n` has a string value.
pub fn tree_safe(n: &YamlNode) -> (r: bool)
    ensures
        r == tree_ok(*n),
    decreases n,
{
    match n {
        YamlNode::List(v) => {
            if v.len() > 0 {
                if let YamlNode::List(w) = &v[0] {
                    if w.len() == 0 {
                        assert(leads_with_empty_list(v@));
                        return false;
                    }
                }
            }
            proof {
                lemma_list_ok(v@);
                assert(!leads_with_empty_list(v@));
            }
            let mut k: usize = 0;
            while k < v.len()
                invariant
                    0 <= k <= v@.len(),
                    tree_ok(*n) <==> forall|i: int| 0 <= i < v@.len() ==> tree_ok(#[trigger] v@[i]),
                    *n == YamlNode::List(*v),
                    forall|i: int| 0 <= i < k ==> tree_ok(#[trigger] v@[i]),
                decreases v@.len() - k,
            {
                proof {
                    assert(decreases_to!(*n => *v));
                    assert(decreases_to!(*v => v@));
                    assert(decreases_to!(v@ => v@[k as int]));
                    assert(decreases_to!(*n => v@[k as int]));
                }
                if !tree_safe(&v[k]) {
                    return false;
                }
                k = k + 1;
            }
            true
        },
        YamlNode::Mapping(es) => {
            proof {
                lemma_entries_ok(es@);
            }
            let mut k: usize = 0;
            while k < es.len()
                invariant
                    0 <= k <= es@.len(),
                    tree_ok(*n) <==> each_entry_ok(es@),
                    *n == YamlNode::Mapping(*es),
                    forall|i: int| 0 <= i < k ==> entry_ok(#[trigger] es@[i]) && tree_ok(es@[i].0) && tree_ok(
                        es@[i].1,
                    ),
                decreases es@.len() - k,
            {
                let e = &es[k];
                if let YamlNode::Text(key) = &e.0 {
                    if is_text(key, "escape") {
                        match &e.1 {
                            YamlNode::Text(_) => {},
                            _ => {
                                return false;
                            },
                        }
                    }
                }
                proof {
                    assert(decreases_to!(*n => *es));
                    assert(decreases_to!(*es => es@));
                    assert(decreases_to!(es@ => es@[k as int]));
                    assert(decreases_to!(es@[k as int] => es@[k as int].0));
                    assert(decreases_to!(es@[k as int] => es@[k as int].1));
                    assert(decreases_to!(*n => es@[k as int].0));
                    assert(decreases_to!(*n => es@[k as int].1));
                }
                if !tree_safe(&e.0) {
                    return false;
                }
                if !tree_safe(&e.1) {
                    return false;
                }
                k = k + 1;
            }
            true
        },
        _ => true,
    }
}

/// The string pairs of a mapping, by their bytes, in order.
pub open spec fn text_pairs(es: Seq<(YamlNode, YamlNode)>) -> Seq<(Seq<u8>, Seq<u8>)>
    decreases es.len(),
{
    if es.len() == 0 {
        Seq::empty()
    } else {
        text_pairs(es.drop_last()) + match es.last() {
            (YamlNode::Text(k), YamlNode::Text(v)) => seq![(bytes_of(k@), bytes_of(v@))],
            _ => Seq::empty(),
        }
    }
}

/// The variables of a grammar's top-level mapping entries: the string pairs
/// of every mapping under a `variables` key.
pub open spec fn vars_of(es: Seq<(YamlNode, YamlNode)>) -> Seq<(Seq<u8>, Seq<u8>)>
    decreases es.len(),
{
    if es.len() == 0 {
        Seq::empty()
    } else {
        vars_of(es.drop_last()) + match es.last() {
            (YamlNode::Text(k), YamlNode::Mapping(ves)) => if bytes_of(k@) == bytes_of("variables"@) {
                text_pairs(ves@)
            } else {
                Seq::empty()
            },
            _ => Seq::empty(),
        }
    }
}

/// The variables of a grammar document.
pub open spec fn root_vars(doc: YamlNode) -> Seq<(Seq<u8>, Seq<u8>)> {
    match doc {
        YamlNode::Mapping(es) => vars_of(es@),
        _ => Seq::empty(),
    }
}

/// `name` in double braces.
pub open spec fn braced(name: Seq<u8>) -> Seq<u8> {
    seq![123u8, 123u8] + name + seq![125u8, 125u8]
}

/// The text `v` refers to the variable `name`.
pub open spec fn mentions(v: Seq<u8>, name: Seq<u8>) -> bool {
    find_from(v, braced(name), 0) is Some
}

/// Variable `i` refers to no variable outside `done`.
pub open spec fn var_ready(vars: Seq<(Seq<u8>, Seq<u8>)>, done: Seq<bool>, i: int) -> bool {
    forall|j: int| 0 <= j < vars.len() && !done[j] ==> !mentions(vars[i].1, #[trigger] vars[j].0)
}

/// One round: a variable is done when it was, or when all it refers to is.
pub open spec fn var_round(vars: Seq<(Seq<u8>, Seq<u8>)>, done: Seq<bool>) -> Seq<bool> {
    Seq::new(vars.len(), |i: int| done[i] || var_ready(vars, done, i))
}

/// The variables done after `k` rounds.
pub open spec fn var_rounds(vars: Seq<(Seq<u8>, Seq<u8>)>, k: nat) -> Seq<bool>
    decreases k,
{
    if k == 0 {
        Seq::new(vars.len(), |i: int| false)
    } else {
        var_round(vars, var_rounds(vars, (k - 1) as nat))
    }
}

/// No chain of variable references goes round: every variable is done after
/// as many rounds as there are variables.
pub open spec fn vars_acyclic(vars: Seq<(Seq<u8>, Seq<u8>)>) -> bool {
    forall|i: int| 0 <= i < vars.len() ==> #[trigger] var_rounds(vars, vars.len())[i]
}

/// A grammar document `syntect` loads without panicking or recursing without
/// end: no sequence starts with an empty sequence, every `escape` key has a
/// string value, and no variable refers back to itself through others.
pub open spec fn grammar_yaml_ok(doc: YamlNode) -> bool {
    tree_ok(doc) && vars_acyclic(root_vars(doc))
}

/// The grammar text is refused by no YAML check: it is no YAML, or its first
/// document passes `grammar_yaml_ok`.
pub open spec fn source_loads_safely(source: Seq<char>) -> bool {
    yaml_document(source) matches Some(d) ==> grammar_yaml_ok(yaml_plain(d))
}

/// The byte views of variable pairs.
pub open spec fn pairs_view(v: Seq<(&[u8], &[u8])>) -> Seq<(Seq<u8>, Seq<u8>)> {
    v.map_values(|p: (&[u8], &[u8])| (p.0@, p.1@))
}

fn push_text_pairs<'a>(out: &mut Vec<(&'a [u8], &'a [u8])>, es: &'a Vec<(YamlNode, YamlNode)>)
    ensures
        pairs_view(final(out)@) == pairs_view(old(out)@) + text_pairs(es@),
{
    let ghost start = pairs_view(out@);
    let mut k: usize = 0;
    assert(es@.take(0) =~= Seq::<(YamlNode, YamlNode)>::empty());
    assert(start + text_pairs(es@.take(0)) =~= start);
    while k < es.len()
        invariant
            0 <= k <= es@.len(),
            pairs_view(out@) == start + text_pairs(es@.take(k as int)),
        decreases es@.len() - k,
    {
        assert(es@.take(k + 1).drop_last() =~= es@.take(k as int));
        assert(es@.take(k + 1).last() == es@[k as int]);
        let ghost before = out@;
        if let (YamlNode::Text(key), YamlNode::Text(value)) = &es[k] {
            out.push((key.as_str().as_bytes(), value.as_str().as_bytes()));
            assert(pairs_view(out@) =~= pairs_view(before).push((bytes_of(key@), bytes_of(value@))));
        }
        k = k + 1;
    }
    assert(es@.take(k as int) =~= es@);
}

fn collect_vars(doc: &YamlNode) -> (r: Vec<(&[u8], &[u8])>)
    ensures
        pairs_view(r@) == root_vars(*doc),
{
    let mut out: Vec<(&[u8], &[u8])> = Vec::new();
    assert(pairs_view(out@) =~= Seq::<(Seq<u8>, Seq<u8>)>::empty());
    if let YamlNode::Mapping(es) = doc {
        let mut k: usize = 0;
        assert(es@.take(0) =~= Seq::<(YamlNode, YamlNode)>::empty());
        while k < es.len()
            invariant
                0 <= k <= es@.len(),
                *doc == YamlNode::Mapping(*es),
                pairs_view(out@) == vars_of(es@.take(k as int)),
            decreases es@.len() - k,
        {
            assert(es@.take(k + 1).drop_last() =~= es@.take(k as int));
            assert(es@.take(k + 1).last() == es@[k as int]);
            let ghost before = pairs_view(out@);
            if let (YamlNode::Text(key), YamlNode::Mapping(ves)) = &es[k] {
                if is_text(key, "variables") {
                    push_text_pairs(&mut out, ves);
                } else {
                    assert(pairs_view(out@) =~= before + Seq::<(Seq<u8>, Seq<u8>)>::empty());
                }
            } else {
                assert(pairs_view(out@) =~= before + Seq::<(Seq<u8>, Seq<u8>)>::empty());
            }
            k = k + 1;
        }
        assert(es@.take(k as int) =~= es@);
    }
    out
}

fn braced_name(name: &[u8]) -> (r: Vec<u8>)
    ensures
        r@ == braced(name@),
{
    let mut r: Vec<u8> = Vec::new();
    r.push(123u8);
    r.push(123u8);
    let mut k: usize = 0;
    while k < name.len()
        invariant
            0 <= k <= name@.len(),
            r@ == seq![123u8, 123u8] + name@.take(k as int),
        decreases name@.len() - k,
    {
        r.push(name[k]);
        assert(name@.take(k + 1) =~= name@.take(k as int).push(name@[k as int]));
        k = k + 1;
    }
    assert(name@.take(k as int) =~= name@);
    r.push(125u8);
    r.push(125u8);
    assert(r@ =~= braced(name@));
    r
}

fn ready_exec(vars: &Vec<(&[u8], &[u8])>, done: &Vec<bool>, i: usize) -> (r: bool)
    requires
        i < vars@.len(),
        done@.len() == vars@.len(),
    ensures
        r == var_ready(pairs_view(vars@), done@, i as int),
{
    let ghost pv = pairs_view(vars@);
    let mut j: usize = 0;
    while j < vars.len()
        invariant
            0 <= j <= vars@.len(),
            i < vars@.len(),
            done@.len() == vars@.len(),
            pv == pairs_view(vars@),
            forall|x: int| 0 <= x < j && !done@[x] ==> !mentions(pv[i as int].1, #[trigger] pv[x].0),
        decreases vars@.len() - j,
    {
        if !done[j] {
            let needle = braced_name(vars[j].0);
            if find_bytes(vars[i].1, needle.as_slice(), 0).is_some() {
                assert(mentions(pv[i as int].1, pv[j as int].0));
                return false;
            }
        }
        j = j + 1;
    }
    true
}

fn vars_acyclic_exec(vars: &Vec<(&[u8], &[u8])>) -> (r: bool)
    ensures
        r == vars_acyclic(pairs_view(vars@)),
{
    let ghost pv = pairs_view(vars@);
    let n = vars.len();
    let mut done: Vec<bool> = Vec::new();
    let mut i: usize = 0;
    while i < n
        invariant
            0 <= i <= n,
            n == vars@.len(),
            done@ == Seq::new(i as nat, |x: int| false),
        decreases n - i,
    {
        done.push(false);
        assert(done@ =~= Seq::new((i + 1) as nat, |x: int| false));
        i = i + 1;
    }
    assert(done@ =~= var_rounds(pv, 0));
    let mut round: usize = 0;
    while round < n
        invariant
            0 <= round <= n,
            n == vars@.len(),
            pv == pairs_view(vars@),
            done@ == var_rounds(pv, round as nat),
            done@.len() == n,
        decreases n - round,
    {
        let mut next: Vec<bool> = Vec::new();
        let mut k: usize = 0;
        while k < n
            invariant
                0 <= k <= n,
                n == vars@.len(),
                pv == pairs_view(vars@),
                done@.len() == n,
                next@.len() == k,
                forall|x: int| 0 <= x < k ==> next@[x] == (done@[x] || var_ready(pv, done@, x)),
            decreases n - k,
        {
            let d = done[k] || ready_exec(vars, &done, k);
            next.push(d);
            k = k + 1;
        }
        assert(next@ =~= var_round(pv, done@));
        done = next;
        round = round + 1;
    }
    let mut k: usize = 0;
    while k < n
        invariant
            0 <= k <= n,
            n == vars@.len(),
            pv == pairs_view(vars@),
            done@ == var_rounds(pv, n as nat),
            forall|x: int| 0 <= x < k ==> #[trigger] var_rounds(pv, pv.len())[x],
        decreases n - k,
    {
        if !done[k] {
            return false;
        }
        k = k + 1;
    }
    true
}

/// Whether `syntect` can be given the grammar text: it is no YAML, or its
/// first document passes `grammar_yaml_ok`.
pub fn grammar_source_ok(source: &str) -> (r: bool)
    ensures
        r == source_loads_safely(source@),
{
    match load_yaml(source) {
        None => true,
        Some(doc) => {
            let node = yaml_node(&doc);
            if !tree_safe(&node) {
                return false;
            }
            let vars = collect_vars(&node);
            vars_acyclic_exec(&vars)
        },
    }
}

} // verus!
