//! Active backend health checking.
//!
//! Each reload, every discovered backend is probed with a short TCP connect.
//! Only backends that answer are placed into the Maglev table.

use vstd::prelude::*;
use vstd::seq_lib::*;
use vstd::relations::*;
use crate::backend::{
    insert_sorted, keys_are_addresses_with_ports, rank_is_lexicographic, sort_backends, sorting_is_stable,
    sorting_keeps_the_backends, stable_sorted, views, Backend, BackendView,
};
use crate::maglev::{keys_params, maglev_table};
use crate::text::decimal;

verus! {

/// The port on which a backend is probed: the override, else the backend's own
/// port, else the default.
pub open spec fn spec_probe_port(
    own: Option<u16>,
    probe_port: Option<u16>,
    default_port: u16,
) -> u16 {
    match (probe_port, own) {
        (Some(p), _) => p,
        (None, Some(p)) => p,
        (None, None) => default_port,
    }
}

/// `probe_port` overrides the port to connect to; otherwise the backend's own
/// port is used, falling back to `default_port` (the first listen port).
pub fn choose_probe_port(own: Option<u16>, probe_port: Option<u16>, default_port: u16) -> (p: u16)
    ensures
        p == spec_probe_port(own, probe_port, default_port),
{
    match probe_port {
        Some(p) => p,
        None => match own {
            Some(p) => p,
            None => default_port,
        },
    }
}

/// Whether backend `i` answered its probe.
pub open spec fn did_answer(answers: Seq<bool>, i: int) -> bool {
    0 <= i < answers.len() && answers[i]
}

/// The backends that answered among the first `n`, in the order of the list.
pub open spec fn answered_among(
    backends: Seq<Backend>,
    answers: Seq<bool>,
    n: nat,
) -> Seq<BackendView>
    decreases n,
{
    if n == 0 {
        Seq::empty()
    } else {
        let before = answered_among(backends, answers, (n - 1) as nat);
        if did_answer(answers, n - 1) {
            before.push(backends[n - 1]@)
        } else {
            before
        }
    }
}

/// The backends that answered, in the order of the list.
pub open spec fn answered(backends: Seq<Backend>, answers: Seq<bool>) -> Seq<BackendView> {
    answered_among(backends, answers, backends.len())
}

/// Return only the backends that accepted a TCP connection on their probe port.
///
/// `answers` says for each of the backends, in the same order, whether it answered;
/// one without an entry did not. The result is in a stable order so the Maglev table
/// is deterministic across reloads.
pub fn filter_healthy(backends: &[Backend], answers: &[bool]) -> (healthy: Vec<Backend>)
    ensures
        views(healthy@) == stable_sorted(answered(backends@, answers@), true),
{
    let mut up: Vec<Backend> = Vec::new();
    let mut i: usize = 0;
    assert(views(up@) =~= answered_among(backends@, answers@, 0));
    while i < backends.len()
        invariant
            i <= backends@.len(),
            views(up@) == answered_among(backends@, answers@, i as nat),
        decreases backends@.len() - i,
    {
        let ghost before = views(up@);
        if i < answers.len() && answers[i] {
            up.push(backends[i]);
            assert(views(up@) =~= before.push(backends@[i as int]@));
        }
        i = i + 1;
    }
    sort_backends(up.as_slice(), true)
}

proof fn lemma_answered(backends: Seq<Backend>, answers: Seq<bool>, n: nat, b: BackendView)
    requires
        n <= backends.len(),
    ensures
        answered_among(backends, answers, n).contains(b) <==> exists|i: int|
            0 <= i < n && #[trigger] did_answer(answers, i) && backends[i]@ == b,
    decreases n,
{
    if n > 0 {
        let m = (n - 1) as nat;
        let before = answered_among(backends, answers, m);
        let all = answered_among(backends, answers, n);
        lemma_answered(backends, answers, m, b);
        if all.contains(b) {
            let k = choose|k: int| 0 <= k < all.len() && all[k] == b;
            if k < before.len() {
                assert(before[k] == b);
                let i = choose|i: int|
                    0 <= i < m && #[trigger] did_answer(answers, i) && backends[i]@ == b;
                assert(did_answer(answers, i) && backends[i]@ == b);
            } else {
                assert(did_answer(answers, n - 1) && backends[n - 1]@ == b);
            }
        }
        if exists|i: int| 0 <= i < n && #[trigger] did_answer(answers, i) && backends[i]@ == b {
            let i = choose|i: int|
                0 <= i < n && #[trigger] did_answer(answers, i) && backends[i]@ == b;
            if i < m {
                assert(did_answer(answers, i) && backends[i]@ == b);
                let k = choose|k: int| 0 <= k < before.len() && before[k] == b;
                assert(all[k] == b);
            } else {
                assert(all[all.len() - 1] == b);
            }
        }
    }
}

/// Law: exactly the backends that answered their probe remain.
pub proof fn exactly_the_healthy_backends_remain(
    backends: Seq<Backend>,
    answers: Seq<bool>,
    b: BackendView,
)
    ensures
        stable_sorted(answered(backends, answers), true).contains(b) <==> exists|i: int|
            0 <= i < backends.len() && #[trigger] did_answer(answers, i) && backends[i]@ == b,
{
    lemma_answered(backends, answers, backends.len(), b);
    sorting_keeps_the_backends(answered(backends, answers), true, b);
}

/// The Maglev keys of a list of backends.
pub open spec fn keys_of(s: Seq<BackendView>) -> Seq<Seq<char>> {
    s.map_values(|b: BackendView| b.key())
}

spec fn ranks_of(s: Seq<BackendView>) -> Seq<int> {
    s.map_values(|b: BackendView| b.rank(true))
}

proof fn lemma_insert_ranks(s: Seq<BackendView>, x: BackendView)
    ensures
        ranks_of(insert_sorted(s, x, true)).to_multiset() == ranks_of(s).to_multiset().insert(
            x.rank(true),
        ),
    decreases s.len(),
{
    broadcast use group_to_multiset_ensures;

    let r = insert_sorted(s, x, true);
    if s.len() == 0 || s.last().rank(true) <= x.rank(true) {
        assert(ranks_of(r) =~= ranks_of(s).push(x.rank(true)));
    } else {
        let t = s.drop_last();
        lemma_insert_ranks(t, x);
        assert(ranks_of(r) =~= ranks_of(insert_sorted(t, x, true)).push(s.last().rank(true)));
        assert(ranks_of(s) =~= ranks_of(t).push(s.last().rank(true)));
        assert(ranks_of(r).to_multiset() =~= ranks_of(s).to_multiset().insert(x.rank(true)));
    }
}

proof fn lemma_sorted_ranks(s: Seq<BackendView>)
    ensures
        ranks_of(stable_sorted(s, true)).to_multiset() == ranks_of(s).to_multiset(),
    decreases s.len(),
{
    broadcast use group_to_multiset_ensures;

    if s.len() > 0 {
        let t = s.drop_last();
        lemma_sorted_ranks(t);
        lemma_insert_ranks(stable_sorted(t, true), s.last());
        assert(ranks_of(s) =~= ranks_of(t).push(s.last().rank(true)));
    }
}

/// Reordered lists have the same ranks, counted with repetition.
proof fn lemma_reordered_ranks(s: Seq<BackendView>, t: Seq<BackendView>)
    requires
        s.to_multiset() == t.to_multiset(),
    ensures
        ranks_of(s).to_multiset() == ranks_of(t).to_multiset(),
    decreases s.len(),
{
    broadcast use group_to_multiset_ensures;
    broadcast use vstd::multiset::group_multiset_axioms;

    s.to_multiset_ensures();
    t.to_multiset_ensures();
    assert(s.len() == t.len());
    if s.len() == 0 {
        assert(s =~= t);
    } else {
        let x = s.last();
        assert(s.contains(x));
        assert(t.to_multiset().count(x) > 0);
        assert(t.contains(x));
        let k = choose|k: int| 0 <= k < t.len() && t[k] == x;
        let s1 = s.drop_last();
        let t1 = t.remove(k);
        assert(s1.push(x) =~= s);
        assert(s.to_multiset() == s1.to_multiset().insert(x));
        assert(t1.to_multiset() == t.to_multiset().remove(x));
        assert(s1.to_multiset() =~= t1.to_multiset());
        lemma_reordered_ranks(s1, t1);
        assert(ranks_of(s) =~= ranks_of(s1).push(x.rank(true)));
        assert(ranks_of(t1) =~= ranks_of(t).remove(k));
        ranks_of(t).to_multiset_ensures();
        assert(ranks_of(t)[k] == x.rank(true));
        assert(ranks_of(t).contains(x.rank(true)));
        assert(ranks_of(s).to_multiset() =~= ranks_of(t).to_multiset());
    }
}

/// Law: the Maglev table does not depend on the order in which the backends are
/// listed and probed. In whatever order the healthy ones come, they have the same
/// keys in the same places.
pub proof fn probe_order_does_not_matter(first: Seq<BackendView>, second: Seq<BackendView>)
    requires
        first.to_multiset() == second.to_multiset(),
    ensures
        keys_of(stable_sorted(first, true)) == keys_of(stable_sorted(second, true)),
        maglev_table(keys_params(keys_of(stable_sorted(first, true)))) == maglev_table(
            keys_params(keys_of(stable_sorted(second, true))),
        ),
{
    let s = stable_sorted(first, true);
    let t = stable_sorted(second, true);
    lemma_sorted_ranks(first);
    lemma_sorted_ranks(second);
    lemma_reordered_ranks(first, second);
    sorting_is_stable(first, true);
    sorting_is_stable(second, true);
    let leq = |a: int, b: int| a <= b;
    assert(sorted_by(ranks_of(s), leq)) by {
        assert forall|i: int, j: int| 0 <= i < j < ranks_of(s).len() implies #[trigger] leq(
            ranks_of(s)[i],
            ranks_of(s)[j],
        ) by {
            assert(s[i].rank(true) <= s[j].rank(true));
        }
    }
    assert(sorted_by(ranks_of(t), leq)) by {
        assert forall|i: int, j: int| 0 <= i < j < ranks_of(t).len() implies #[trigger] leq(
            ranks_of(t)[i],
            ranks_of(t)[j],
        ) by {
            assert(t[i].rank(true) <= t[j].rank(true));
        }
    }
    lemma_sorted_unique(ranks_of(s), ranks_of(t), leq);
    assert(ranks_of(s).len() == s.len() && ranks_of(t).len() == t.len());
    assert forall|i: int| 0 <= i < s.len() implies s[i].key() == #[trigger] t[i].key() by {
        assert(ranks_of(s)[i] == ranks_of(t)[i]);
        rank_is_lexicographic(s[i], t[i]);
    }
    assert(keys_of(s) =~= keys_of(t));
}

/// Law: a backend is probed on the configured probe port if there is one, else on its own
/// port if it has one, and else on the default port.
pub proof fn probe_ports_have_precedence(
    own: Option<u16>,
    probe_port: Option<u16>,
    default_port: u16,
)
    ensures
        probe_port is Some ==> spec_probe_port(own, probe_port, default_port) == probe_port->0,
        probe_port is None && own is Some ==> spec_probe_port(own, probe_port, default_port)
            == own->0,
        probe_port is None && own is None ==> spec_probe_port(own, probe_port, default_port)
            == default_port,
{
}

/// Law: a backend at the end of the list is kept, behind those kept before it, exactly if
/// there is an answer in its place and it is yes.
pub proof fn answers_pick_the_backends(backends: Seq<Backend>, b: Backend, answers: Seq<bool>)
    ensures
        answered(Seq::empty(), answers) == Seq::<BackendView>::empty(),
        answers.len() > backends.len() && answers[backends.len() as int] ==> answered(
            backends.push(b),
            answers,
        ) == answered(backends, answers).push(b@),
        answers.len() <= backends.len() || !answers[backends.len() as int] ==> answered(
            backends.push(b),
            answers,
        ) == answered(backends, answers),
{
    lemma_answered_prefix(backends, backends.push(b), answers, backends.len());
}

proof fn lemma_answered_prefix(a: Seq<Backend>, b: Seq<Backend>, answers: Seq<bool>, n: nat)
    requires
        n <= a.len(),
        n <= b.len(),
        forall|i: int| 0 <= i < n ==> #[trigger] a[i] == b[i],
    ensures
        answered_among(a, answers, n) == answered_among(b, answers, n),
    decreases n,
{
    if n > 0 {
        lemma_answered_prefix(a, b, answers, (n - 1) as nat);
        assert(a[n - 1] == b[n - 1]);
    }
}

/// Law: the key of every backend stands in its place: address, colon and port, zero
/// standing for a backend without a port of its own.
pub proof fn keys_stand_in_place(s: Seq<BackendView>, i: int)
    requires
        0 <= i < s.len(),
    ensures
        keys_of(s).len() == s.len(),
        s[i].port is Some ==> keys_of(s)[i] == s[i].ip.text() + seq![':'] + decimal(
            s[i].port->0 as nat,
        ),
        s[i].port is None ==> keys_of(s)[i] == s[i].ip.text() + seq![':', '0'],
{
    keys_are_addresses_with_ports(s[i]);
}

} // verus!
