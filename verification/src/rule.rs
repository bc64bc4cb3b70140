//! The pattern model: placeholder variables, query patterns made of chains of
//! variables, and the syntactic analysis that derives the distinct-variable
//! list and each variable's adjacency requirements.

use vstd::prelude::*;

verus! {

broadcast use vstd::seq_lib::group_seq_properties;

/// A placeholder symbol used inside a pattern, to be bound to a point.
/// Variables carry no graph state and are compared only by equality.
#[allow(non_camel_case_types)]
#[derive(Debug, Clone, PartialEq, Eq, PartialOrd, Ord, Hash, Copy, Structural)]
pub enum Variable {
    a,
    b,
    c,
    d,
    e,
    f,
    g,
    h,
    i,
    j,
    k,
    l,
    m,
    n,
    o,
    p,
    q,
    r,
    s,
    t,
    u,
    v,
    w,
    x,
    y,
    z,
}

/// The chains of a pattern as a sequence of sequences.
pub open spec fn chains_view(p: Seq<Vec<Variable>>) -> Seq<Seq<Variable>> {
    p.map_values(|c: Vec<Variable>| c@)
}

/// Every variable occurrence of every chain, in order.
pub open spec fn collect_vars(chains: Seq<Seq<Variable>>) -> Seq<Variable>
    decreases chains.len(),
{
    if chains.len() == 0 {
        Seq::empty()
    } else {
        chains.first() + collect_vars(chains.drop_first())
    }
}

/// `v` occurs somewhere in the pattern.
pub open spec fn appears(chains: Seq<Seq<Variable>>, v: Variable) -> bool {
    collect_vars(chains).contains(v)
}

pub open spec fn push_if_new(acc: Seq<Variable>, v: Variable) -> Seq<Variable> {
    if acc.contains(v) {
        acc
    } else {
        acc.push(v)
    }
}

/// Folds the occurrences of `s` onto `acc`, keeping each variable the first
/// time it is seen.
pub open spec fn first_seen_from(acc: Seq<Variable>, s: Seq<Variable>) -> Seq<Variable>
    decreases s.len(),
{
    if s.len() == 0 {
        acc
    } else {
        first_seen_from(push_if_new(acc, s.first()), s.drop_first())
    }
}

/// The distinct variables of a pattern, in first-seen order.
pub open spec fn distinct_vars(chains: Seq<Seq<Variable>>) -> Seq<Variable> {
    first_seen_from(Seq::empty(), collect_vars(chains))
}

/// The immediate successor of every occurrence of `v` in the chain `c`:
/// one entry per position of `c` that holds `v` and has a successor.
pub open spec fn chain_succs(c: Seq<Variable>, v: Variable) -> Seq<Variable>
    decreases c.len(),
{
    if c.len() < 2 {
        Seq::empty()
    } else if c.first() == v {
        seq![c[1]] + chain_succs(c.drop_first(), v)
    } else {
        chain_succs(c.drop_first(), v)
    }
}

/// The adjacency obligations of `v` over all chains, duplicates allowed:
/// each occurrence of `v` with a successor imposes one obligation.
pub open spec fn pattern_succs(chains: Seq<Seq<Variable>>, v: Variable) -> Seq<Variable>
    decreases chains.len(),
{
    if chains.len() == 0 {
        Seq::empty()
    } else {
        chain_succs(chains.first(), v) + pattern_succs(chains.drop_first(), v)
    }
}

/// The pattern demands a relation from `v` to `w` somewhere.
pub open spec fn requires_adjacency(chains: Seq<Seq<Variable>>, v: Variable, w: Variable) -> bool {
    pattern_succs(chains, v).contains(w)
}

/// `v` has at least one adjacency obligation.
pub open spec fn has_requirements(chains: Seq<Seq<Variable>>, v: Variable) -> bool {
    pattern_succs(chains, v).len() != 0
}

/// The members of `vs` that have adjacency obligations, in order.
pub open spec fn keys_with_reqs(chains: Seq<Seq<Variable>>, vs: Seq<Variable>) -> Seq<Variable>
    decreases vs.len(),
{
    if vs.len() == 0 {
        Seq::empty()
    } else {
        let rest = keys_with_reqs(chains, vs.drop_last());
        if has_requirements(chains, vs.last()) {
            rest.push(vs.last())
        } else {
            rest
        }
    }
}

/// The variables that own an entry of the requirements mapping, in
/// first-seen order: those with at least one obligation.
pub open spec fn required_keys(chains: Seq<Seq<Variable>>) -> Seq<Variable> {
    keys_with_reqs(chains, distinct_vars(chains))
}

/// An association list is the requirements mapping of `chains`: one entry
/// per distinct variable with obligations, in first-seen order, carrying its
/// full obligation list.
pub open spec fn is_requirements_list(
    chains: Seq<Seq<Variable>>,
    r: Seq<(Variable, Vec<Variable>)>,
) -> bool {
    &&& r.len() == required_keys(chains).len()
    &&& forall|k: int|
        0 <= k < r.len() ==> r[k].0 == required_keys(chains)[k] && r[k].1@ == pattern_succs(
            chains,
            r[k].0,
        )
}

/// Splitting a non-empty sequence at its head splits membership.
pub proof fn lemma_contains_split<A>(s: Seq<A>, v: A)
    requires
        s.len() > 0,
    ensures
        s.contains(v) <==> (s.first() == v || s.drop_first().contains(v)),
{
    if s.contains(v) {
        let i = choose|i: int| 0 <= i < s.len() && s[i] == v;
        if i > 0 {
            assert(s.drop_first()[i - 1] == v);
        }
    }
    if s.drop_first().contains(v) {
        let i = choose|i: int| 0 <= i < s.drop_first().len() && s.drop_first()[i] == v;
        assert(s[i + 1] == v);
    }
    if s.first() == v {
        assert(s[0] == v);
    }
}

/// Membership of the first-seen fold: exactly the members of the
/// accumulator and of the scanned sequence.
pub proof fn lemma_first_seen_from_contains(acc: Seq<Variable>, s: Seq<Variable>, v: Variable)
    ensures
        first_seen_from(acc, s).contains(v) <==> (acc.contains(v) || s.contains(v)),
    decreases s.len(),
{
    if s.len() == 0 {
    } else {
        lemma_first_seen_from_contains(push_if_new(acc, s.first()), s.drop_first(), v);
        lemma_contains_split(s, v);
        if !acc.contains(s.first()) {
            assert(acc.push(s.first()).contains(v) <==> (acc.contains(v) || s.first() == v))
                by {
                lemma_contains_push(acc, s.first(), v);
            }
        }
    }
}

/// Membership after a push.
pub proof fn lemma_contains_push<A>(s: Seq<A>, x: A, v: A)
    ensures
        s.push(x).contains(v) <==> (s.contains(v) || v == x),
{
    if s.contains(v) {
        let i = choose|i: int| 0 <= i < s.len() && s[i] == v;
        assert(s.push(x)[i] == v);
    }
    if v == x {
        assert(s.push(x)[s.len() as int] == v);
    }
    if s.push(x).contains(v) {
        let i = choose|i: int| 0 <= i < s.push(x).len() && s.push(x)[i] == v;
        if i < s.len() {
            assert(s[i] == v);
        }
    }
}

/// The first-seen fold of a duplicate-free accumulator stays duplicate-free.
pub proof fn lemma_first_seen_from_nodup(acc: Seq<Variable>, s: Seq<Variable>)
    requires
        acc.no_duplicates(),
    ensures
        first_seen_from(acc, s).no_duplicates(),
    decreases s.len(),
{
    if s.len() > 0 {
        let acc2 = push_if_new(acc, s.first());
        assert(acc2.no_duplicates()) by {
            if !acc.contains(s.first()) {
                assert forall|i: int, j: int|
                    0 <= i < acc2.len() && 0 <= j < acc2.len() && i != j implies acc2[i]
                    != acc2[j] by {
                    if i < acc.len() && j < acc.len() {
                    } else if j == acc.len() {
                        assert(acc[i] == acc2[i]);
                        if acc[i] == s.first() {
                            assert(acc.contains(s.first()));
                        }
                    } else {
                        assert(acc[j] == acc2[j]);
                        if acc[j] == s.first() {
                            assert(acc.contains(s.first()));
                        }
                    }
                }
            }
        }
        lemma_first_seen_from_nodup(acc2, s.drop_first());
    }
}

/// The distinct-variable list holds exactly the variables of the pattern,
/// each once.
pub proof fn lemma_distinct_vars_ensures(chains: Seq<Seq<Variable>>)
    ensures
        distinct_vars(chains).no_duplicates(),
        forall|v: Variable| distinct_vars(chains).contains(v) <==> appears(chains, v),
{
    lemma_first_seen_from_nodup(Seq::empty(), collect_vars(chains));
    assert forall|v: Variable| distinct_vars(chains).contains(v) <==> appears(chains, v) by {
        lemma_first_seen_from_contains(Seq::empty(), collect_vars(chains), v);
    }
}

/// Each member of a chain's obligation list occurs in the chain, as does the
/// variable that owns it.
pub proof fn lemma_chain_succs_members(c: Seq<Variable>, v: Variable, w: Variable)
    requires
        chain_succs(c, v).contains(w),
    ensures
        c.contains(v) && c.contains(w),
    decreases c.len(),
{
    if c.len() < 2 {
    } else {
        if chain_succs(c.drop_first(), v).contains(w) {
            lemma_chain_succs_members(c.drop_first(), v, w);
            lemma_contains_split(c, v);
            lemma_contains_split(c, w);
        } else {
            assert(c.first() == v);
            assert(seq![c[1]].contains(w));
            assert(seq![c[1]][0] == c[1]);
            assert(c[1] == w);
            assert(c[0] == v);
        }
    }
}

/// Both sides of every adjacency obligation occur in the pattern.
pub proof fn lemma_pattern_succs_members(chains: Seq<Seq<Variable>>, v: Variable, w: Variable)
    requires
        requires_adjacency(chains, v, w),
    ensures
        appears(chains, v),
        appears(chains, w),
    decreases chains.len(),
{
    if chains.len() == 0 {
    } else {
        if chain_succs(chains.first(), v).contains(w) {
            lemma_chain_succs_members(chains.first(), v, w);
            assert(collect_vars(chains).contains(v));
            assert(collect_vars(chains).contains(w));
        } else {
            lemma_pattern_succs_members(chains.drop_first(), v, w);
        }
    }
}

/// Two consecutive positions of a chain impose the corresponding obligation.
pub proof fn lemma_chain_position_succs(c: Seq<Variable>, j: int)
    requires
        0 <= j,
        j + 1 < c.len(),
    ensures
        chain_succs(c, c[j]).contains(c[j + 1]),
    decreases j,
{
    if j == 0 {
        assert((seq![c[1]] + chain_succs(c.drop_first(), c[0]))[0] == c[1]);
    } else {
        lemma_chain_position_succs(c.drop_first(), j - 1);
        let d = c.drop_first();
        assert(d[j - 1] == c[j]);
        assert(d[j] == c[j + 1]);
        let rest = chain_succs(d, c[j]);
        let i = choose|i: int| 0 <= i < rest.len() && rest[i] == c[j + 1];
        if c.first() == c[j] {
            assert((seq![c[1]] + rest)[i + 1] == c[j + 1]);
        }
    }
}

/// Two consecutive positions anywhere in the pattern impose the
/// corresponding adjacency demand.
pub proof fn lemma_pattern_position_adjacency(chains: Seq<Seq<Variable>>, i: int, j: int)
    requires
        0 <= i < chains.len(),
        0 <= j,
        j + 1 < chains[i].len(),
    ensures
        requires_adjacency(chains, chains[i][j], chains[i][j + 1]),
    decreases i,
{
    if i == 0 {
        lemma_chain_position_succs(chains.first(), j);
        let v = chains[0][j];
        let cfirst = chain_succs(chains.first(), v);
        let k = choose|k: int| 0 <= k < cfirst.len() && cfirst[k] == chains[0][j + 1];
        assert((cfirst + pattern_succs(chains.drop_first(), v))[k] == chains[0][j + 1]);
    } else {
        let d = chains.drop_first();
        assert(d[i - 1] == chains[i]);
        lemma_pattern_position_adjacency(d, i - 1, j);
        let v = chains[i][j];
        let rest = pattern_succs(d, v);
        let k = choose|k: int| 0 <= k < rest.len() && rest[k] == chains[i][j + 1];
        assert((chain_succs(chains.first(), v) + rest)[k + chain_succs(chains.first(), v).len()]
            == chains[i][j + 1]);
    }
}

/// True iff `x` occurs in `list`.
pub(crate) fn contains_var(list: &Vec<Variable>, x: Variable) -> (r: bool)
    ensures
        r == list@.contains(x),
{
    let n = list.len();
    let mut i: usize = 0;
    while i < n
        invariant
            0 <= i <= n,
            n == list@.len(),
            forall|k: int| 0 <= k < i ==> list@[k] != x,
        decreases n - i,
    {
        if list[i] == x {
            proof {
                assert(list@[i as int] == x);
            }
            return true;
        }
        i += 1;
    }
    proof {
        if list@.contains(x) {
            let k = choose|k: int| 0 <= k < list@.len() && list@[k] == x;
            assert(false);
        }
    }
    false
}

/// The distinct variables of the chains, in first-seen order.
pub(crate) fn distinct_variables_of(chains: &Vec<Vec<Variable>>) -> (r: Vec<Variable>)
    ensures
        r@ == distinct_vars(chains_view(chains@)),
{
    let ghost cs = chains_view(chains@);
    let mut acc: Vec<Variable> = Vec::new();
    let n = chains.len();
    proof {
        assert(cs.skip(0) =~= cs);
        assert(acc@ =~= Seq::<Variable>::empty());
    }
    let mut i: usize = 0;
    while i < n
        invariant
            0 <= i <= n,
            n == chains@.len(),
            cs == chains_view(chains@),
            cs.len() == n,
            first_seen_from(acc@, collect_vars(cs.skip(i as int))) == distinct_vars(cs),
        decreases n - i,
    {
        let m = chains[i].len();
        proof {
            assert(cs.skip(i as int).first() == cs[i as int]);
            assert(cs.skip(i as int).drop_first() =~= cs.skip(i as int + 1));
            assert(cs[i as int].skip(0) =~= cs[i as int]);
        }
        let mut j: usize = 0;
        while j < m
            invariant
                0 <= j <= m,
                0 <= i < n,
                n == chains@.len(),
                cs == chains_view(chains@),
                cs.len() == n,
                m == cs[i as int].len(),
                first_seen_from(
                    acc@,
                    cs[i as int].skip(j as int) + collect_vars(cs.skip(i as int + 1)),
                ) == distinct_vars(cs),
            decreases m - j,
        {
            let ghost acc0 = acc@;
            let ghost s = cs[i as int].skip(j as int) + collect_vars(cs.skip(i as int + 1));
            let v = chains[i][j];
            if !contains_var(&acc, v) {
                acc.push(v);
            }
            proof {
                assert(s.len() > 0);
                assert(s.first() == cs[i as int][j as int]);
                assert(cs[i as int][j as int] == v);
                assert(acc@ == push_if_new(acc0, v));
                assert(s.drop_first() =~= cs[i as int].skip(j as int + 1) + collect_vars(
                    cs.skip(i as int + 1),
                ));
            }
            j += 1;
        }
        proof {
            assert(cs[i as int].skip(m as int) + collect_vars(cs.skip(i as int + 1))
                =~= collect_vars(cs.skip(i as int + 1)));
        }
        i += 1;
    }
    proof {
        assert(cs.skip(n as int) =~= Seq::<Seq<Variable>>::empty());
        assert(first_seen_from(acc@, Seq::empty()) == acc@);
    }
    acc
}

/// The full obligation list of `v` over the chains, in scan order.
pub(crate) fn successor_list(chains: &Vec<Vec<Variable>>, v: Variable) -> (r: Vec<Variable>)
    ensures
        r@ == pattern_succs(chains_view(chains@), v),
{
    let ghost cs = chains_view(chains@);
    let mut r: Vec<Variable> = Vec::new();
    let n = chains.len();
    proof {
        assert(cs.skip(0) =~= cs);
        assert(r@ + pattern_succs(cs, v) =~= pattern_succs(cs, v));
    }
    let mut i: usize = 0;
    while i < n
        invariant
            0 <= i <= n,
            n == chains@.len(),
            cs == chains_view(chains@),
            cs.len() == n,
            r@ + pattern_succs(cs.skip(i as int), v) == pattern_succs(cs, v),
        decreases n - i,
    {
        let m = chains[i].len();
        proof {
            assert(cs.skip(i as int).first() == cs[i as int]);
            assert(cs.skip(i as int).drop_first() =~= cs.skip(i as int + 1));
            assert(cs[i as int].skip(0) =~= cs[i as int]);
            assert(r@ + (chain_succs(cs[i as int], v) + pattern_succs(cs.skip(i as int + 1), v))
                =~= (r@ + chain_succs(cs[i as int].skip(0), v)) + pattern_succs(
                cs.skip(i as int + 1),
                v,
            ));
        }
        let mut j: usize = 0;
        while j < m
            invariant
                0 <= j <= m,
                0 <= i < n,
                n == chains@.len(),
                cs == chains_view(chains@),
                cs.len() == n,
                m == cs[i as int].len(),
                (r@ + chain_succs(cs[i as int].skip(j as int), v)) + pattern_succs(
                    cs.skip(i as int + 1),
                    v,
                ) == pattern_succs(cs, v),
            decreases m - j,
        {
            let ghost r0 = r@;
            let ghost c = cs[i as int];
            let ghost tail = c.skip(j as int);
            if chains[i][j] == v && j + 1 < m {
                r.push(chains[i][j + 1]);
            }
            proof {
                if j + 1 < m {
                    assert(tail.len() >= 2);
                    assert(tail.first() == c[j as int]);
                    assert(tail[1] == c[j as int + 1]);
                    assert(tail.drop_first() =~= c.skip(j as int + 1));
                    if c[j as int] == v {
                        assert(chain_succs(tail, v) == seq![c[j as int + 1]] + chain_succs(
                            c.skip(j as int + 1),
                            v,
                        ));
                        assert(r@ == r0.push(c[j as int + 1]));
                        assert((r@ + chain_succs(c.skip(j as int + 1), v)) =~= (r0 + chain_succs(
                            tail,
                            v,
                        )));
                    } else {
                        assert(chain_succs(tail, v) == chain_succs(c.skip(j as int + 1), v));
                    }
                } else {
                    assert(tail.len() < 2);
                    assert(chain_succs(tail, v) == Seq::<Variable>::empty());
                    assert(c.skip(j as int + 1).len() < 2);
                    assert(chain_succs(c.skip(j as int + 1), v) == Seq::<Variable>::empty());
                }
            }
            j += 1;
        }
        proof {
            assert(chain_succs(cs[i as int].skip(m as int), v) == Seq::<Variable>::empty());
            assert((r@ + Seq::<Variable>::empty()) + pattern_succs(cs.skip(i as int + 1), v)
                =~= r@ + pattern_succs(cs.skip(i as int + 1), v));
        }
        i += 1;
    }
    proof {
        assert(cs.skip(n as int) =~= Seq::<Seq<Variable>>::empty());
        assert(r@ + Seq::<Variable>::empty() =~= r@);
    }
    r
}

/// The requirements mapping of the chains, as an association list in
/// first-seen key order: each distinct variable with at least one adjacency
/// obligation, paired with its full obligation list.  A variable with no
/// obligation is absent, not mapped to an empty list.
pub(crate) fn requirements_of(chains: &Vec<Vec<Variable>>) -> (r: Vec<(Variable, Vec<Variable>)>)
    ensures
        is_requirements_list(chains_view(chains@), r@),
{
    let ghost cs = chains_view(chains@);
    let vars = distinct_variables_of(chains);
    let mut r: Vec<(Variable, Vec<Variable>)> = Vec::new();
    let n = vars.len();
    proof {
        assert(vars@.take(0) =~= Seq::<Variable>::empty());
    }
    let mut i: usize = 0;
    while i < n
        invariant
            0 <= i <= n,
            n == vars@.len(),
            cs == chains_view(chains@),
            vars@ == distinct_vars(cs),
            r@.len() == keys_with_reqs(cs, vars@.take(i as int)).len(),
            forall|k: int|
                0 <= k < r@.len() ==> r@[k].0 == keys_with_reqs(cs, vars@.take(i as int))[k]
                    && r@[k].1@ == pattern_succs(cs, r@[k].0),
        decreases n - i,
    {
        let ghost keys0 = keys_with_reqs(cs, vars@.take(i as int));
        let v = vars[i];
        let succs = successor_list(chains, v);
        let has = succs.len() > 0;
        if has {
            r.push((v, succs));
        }
        proof {
            let t1 = vars@.take(i as int + 1);
            assert(t1.drop_last() =~= vars@.take(i as int));
            assert(t1.last() == v);
            if has {
                assert(keys_with_reqs(cs, t1) == keys0.push(v));
            } else {
                assert(keys_with_reqs(cs, t1) == keys0);
            }
        }
        i += 1;
    }
    proof {
        assert(vars@.take(n as int) =~= vars@);
    }
    r
}

/// The error returned when a pattern is rejected at construction.
#[derive(Clone, Copy, Debug, PartialEq, Eq, Structural)]
pub enum PatternError {
    MalformedPattern,
}

/// A well-formed pattern: at least one chain, and no empty chain, so the
/// pattern references at least one variable.
pub open spec fn pattern_ok(chains: Seq<Seq<Variable>>) -> bool {
    &&& chains.len() > 0
    &&& forall|i: int| 0 <= i < chains.len() ==> chains[i].len() > 0
}

/// A rewrite rule: a pattern of relations to find and a pattern to replace
/// it with.  The variables are placeholders for arbitrary points, and two
/// different variables stand for two different points.
pub struct Rule {
    find_pattern: Vec<Vec<Variable>>,
    replace_pattern: Vec<Vec<Variable>>,
}

impl View for Rule {
    type V = (Seq<Seq<Variable>>, Seq<Seq<Variable>>);

    closed spec fn view(&self) -> (Seq<Seq<Variable>>, Seq<Seq<Variable>>) {
        (chains_view(self.find_pattern@), chains_view(self.replace_pattern@))
    }
}

/// The members of `vs` that do not occur in `find`, in order.
pub open spec fn vars_absent_from(find: Seq<Seq<Variable>>, vs: Seq<Variable>) -> Seq<Variable>
    decreases vs.len(),
{
    if vs.len() == 0 {
        Seq::empty()
    } else {
        let rest = vars_absent_from(find, vs.drop_last());
        if !appears(find, vs.last()) {
            rest.push(vs.last())
        } else {
            rest
        }
    }
}

/// The variables of `replace` that are not in `find`, in first-seen order of
/// `replace`.
pub open spec fn vars_to_create(
    find: Seq<Seq<Variable>>,
    replace: Seq<Seq<Variable>>,
) -> Seq<Variable> {
    vars_absent_from(find, distinct_vars(replace))
}

impl Rule {
    pub fn new(find_pattern: Vec<Vec<Variable>>, replace_pattern: Vec<Vec<Variable>>) -> (r: Rule)
        ensures
            r@ == (chains_view(find_pattern@), chains_view(replace_pattern@)),
    {
        Rule { find_pattern, replace_pattern }
    }

    /// The distinct variables of a pattern, each the first time it is seen.
    pub fn get_distinct_variables_in_pattern(rule_pattern: Vec<Vec<Variable>>) -> (r: Vec<
        Variable,
    >)
        ensures
            r@ == distinct_vars(chains_view(rule_pattern@)),
            r@.no_duplicates(),
            forall|v: Variable| r@.contains(v) <==> appears(chains_view(rule_pattern@), v),
    {
        proof {
            lemma_distinct_vars_ensures(chains_view(rule_pattern@));
        }
        distinct_variables_of(&rule_pattern)
    }

    /// The variables that occur in the replace pattern but not in the find
    /// pattern: those a rewrite would have to create fresh points for.
    pub fn find_variables_to_create(
        find_pattern: &Vec<Vec<Variable>>,
        replace_pattern: Vec<Vec<Variable>>,
    ) -> (r: Vec<Variable>)
        ensures
            r@ == vars_to_create(chains_view(find_pattern@), chains_view(replace_pattern@)),
    {
        let ghost fcs = chains_view(find_pattern@);
        let ghost rcs = chains_view(replace_pattern@);
        let find_vars = distinct_variables_of(find_pattern);
        let replace_vars = distinct_variables_of(&replace_pattern);
        let mut r: Vec<Variable> = Vec::new();
        let n = replace_vars.len();
        proof {
            assert(replace_vars@.take(0) =~= Seq::<Variable>::empty());
        }
        let mut i: usize = 0;
        while i < n
            invariant
                0 <= i <= n,
                n == replace_vars@.len(),
                fcs == chains_view(find_pattern@),
                find_vars@ == distinct_vars(fcs),
                replace_vars@ == distinct_vars(rcs),
                r@ == vars_absent_from(fcs, replace_vars@.take(i as int)),
            decreases n - i,
        {
            let v = replace_vars[i];
            let is_new = !contains_var(&find_vars, v);
            proof {
                lemma_distinct_vars_ensures(fcs);
                assert(is_new == !appears(fcs, v));
            }
            if is_new {
                r.push(v);
            }
            proof {
                let t1 = replace_vars@.take(i as int + 1);
                assert(t1.drop_last() =~= replace_vars@.take(i as int));
                assert(t1.last() == v);
            }
            i += 1;
        }
        proof {
            assert(replace_vars@.take(n as int) =~= replace_vars@);
        }
        r
    }

    /// The requirements mapping of a find pattern (see `requirements_of`).
    pub fn get_find_pattern_requirements(find_pattern: &Vec<Vec<Variable>>) -> (r: Vec<
        (Variable, Vec<Variable>),
    >)
        ensures
            is_requirements_list(chains_view(find_pattern@), r@),
    {
        requirements_of(find_pattern)
    }
}

/// A query pattern: a list of chains, where each chain is a list of
/// variables and demands a relation from each variable of the chain to the
/// next one.
pub struct Pattern {
    pattern: Vec<Vec<Variable>>,
}

impl View for Pattern {
    type V = Seq<Seq<Variable>>;

    closed spec fn view(&self) -> Seq<Seq<Variable>> {
        chains_view(self.pattern@)
    }
}

impl Pattern {
    /// Builds a pattern, rejecting a malformed one: a pattern with an empty
    /// chain, or one that references no variables at all.
    pub fn new(pattern: Vec<Vec<Variable>>) -> (r: Result<Pattern, PatternError>)
        ensures
            r is Ok <==> pattern_ok(chains_view(pattern@)),
            r is Ok ==> r.unwrap()@ == chains_view(pattern@),
            r is Err ==> r == Result::<Pattern, PatternError>::Err(PatternError::MalformedPattern),
    {
        if pattern.len() == 0 {
            proof {
                assert(chains_view(pattern@).len() == 0);
            }
            return Err(PatternError::MalformedPattern);
        }
        let n = pattern.len();
        let mut i: usize = 0;
        while i < n
            invariant
                0 <= i <= n,
                n == pattern@.len(),
                forall|k: int| 0 <= k < i ==> chains_view(pattern@)[k].len() > 0,
            decreases n - i,
        {
            if pattern[i].len() == 0 {
                proof {
                    assert(chains_view(pattern@)[i as int].len() == 0);
                }
                return Err(PatternError::MalformedPattern);
            }
            i += 1;
        }
        Ok(Pattern { pattern })
    }

    /// A copy of the chains of the pattern.
    pub fn get_pattern(&self) -> (r: Vec<Vec<Variable>>)
        ensures
            chains_view(r@) == self@,
    {
        let n = self.pattern.len();
        let mut r: Vec<Vec<Variable>> = Vec::new();
        let mut i: usize = 0;
        while i < n
            invariant
                0 <= i <= n,
                n == self.pattern@.len(),
                r@.len() == i,
                forall|k: int| 0 <= k < i ==> chains_view(r@)[k] == self@[k],
            decreases n - i,
        {
            let m = self.pattern[i].len();
            let mut chain: Vec<Variable> = Vec::new();
            let mut j: usize = 0;
            while j < m
                invariant
                    0 <= j <= m,
                    0 <= i < n,
                    n == self.pattern@.len(),
                    m == self.pattern@[i as int]@.len(),
                    chain@ == self.pattern@[i as int]@.take(j as int),
                decreases m - j,
            {
                chain.push(self.pattern[i][j]);
                proof {
                    assert(self.pattern@[i as int]@.take(j as int + 1) =~= self.pattern@[
                        i as int]@.take(j as int).push(self.pattern@[i as int]@[j as int]));
                }
                j += 1;
            }
            proof {
                assert(self.pattern@[i as int]@.take(m as int) =~= self.pattern@[i as int]@);
            }
            r.push(chain);
            i += 1;
        }
        proof {
            assert(chains_view(r@) =~= self@);
        }
        r
    }

    /// The distinct variables of this pattern, in first-seen order.
    pub fn get_distinct_variables_in_pattern(&self) -> (r: Vec<Variable>)
        ensures
            r@ == distinct_vars(self@),
            r@.no_duplicates(),
            forall|v: Variable| r@.contains(v) <==> appears(self@, v),
    {
        proof {
            lemma_distinct_vars_ensures(self@);
        }
        distinct_variables_of(&self.pattern)
    }

    /// The requirements mapping of this pattern (see `requirements_of`).
    pub fn get_variable_requirements(&self) -> (r: Vec<(Variable, Vec<Variable>)>)
        ensures
            is_requirements_list(self@, r@),
    {
        requirements_of(&self.pattern)
    }
}

} // verus!
