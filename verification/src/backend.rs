//! Backends: their Maglev keys, their order, and lists without repetition.

use vstd::prelude::*;
use crate::net::{endpoint, endpoint_reads_back, EndpointError, Ipv4Addr};
use crate::text::{decimal, push_decimal};

verus! {

/// A resolved backend the data plane can route to.
#[derive(Debug, Clone, Copy, PartialEq, Eq)]
pub struct Backend {
    pub ip: Ipv4Addr,
    /// `None` keeps the packet's original destination port.
    pub port: Option<u16>,
    pub mac: [u8; 6],
}

/// The mathematical contents of a [`Backend`].
#[verifier::ext_equal]
pub struct BackendView {
    pub ip: Ipv4Addr,
    pub port: Option<u16>,
    pub mac: Seq<u8>,
}

impl View for Backend {
    type V = BackendView;

    open spec fn view(&self) -> BackendView {
        BackendView { ip: self.ip, port: self.port, mac: self.mac@ }
    }
}

/// The contents of a list of backends.
pub open spec fn views(backends: Seq<Backend>) -> Seq<BackendView> {
    backends.map_values(|b: Backend| b@)
}

/// The port of a backend, `0` standing for "keep the original port".
pub open spec fn port_or_zero(port: Option<u16>) -> u16 {
    match port {
        Some(p) => p,
        None => 0,
    }
}

impl BackendView {
    /// The Maglev key: address and port.
    pub open spec fn key(self) -> Seq<char> {
        self.ip.text().push(':') + decimal(port_or_zero(self.port) as nat)
    }

    /// Where the backend stands in a list: by address, or by address and then
    /// port, where keeping the original port comes before any port.
    pub open spec fn rank(self, by_port: bool) -> int {
        if by_port {
            self.ip.bits * 65537 + (match self.port {
                Some(p) => p + 1,
                None => 0,
            })
        } else {
            self.ip.bits as int
        }
    }
}

impl Backend {
    /// Stable key used to seed the Maglev permutation. Independent of MAC so a
    /// neighbour-table refresh doesn't reshuffle the whole table.
    pub fn key(&self) -> (k: String)
        ensures
            k@ == self@.key(),
    {
        let mut out = String::new();
        self.ip.push_text(&mut out);
        out.push(':');
        let port: u16 = match self.port {
            Some(p) => p,
            None => 0,
        };
        push_decimal(&mut out, port as u64);
        assert(out@ =~= self@.key());
        out
    }

    fn rank(&self, by_port: bool) -> (r: u64)
        ensures
            r == self@.rank(by_port),
    {
        if by_port {
            let port: u64 = match self.port {
                Some(p) => p as u64 + 1,
                None => 0,
            };
            self.ip.bits as u64 * 65537 + port
        } else {
            self.ip.bits as u64
        }
    }

    /// Whether two backends agree in address, port and MAC.
    pub fn same(&self, other: &Backend) -> (b: bool)
        ensures
            b == (self@ == other@),
    {
        if self.ip.bits != other.ip.bits {
            return false;
        }
        let ports_agree: bool = match (self.port, other.port) {
            (Some(p), Some(q)) => p == q,
            (None, None) => true,
            _ => false,
        };
        if !ports_agree {
            return false;
        }
        let mut i: usize = 0;
        while i < 6
            invariant
                i <= 6,
                forall|k: int| 0 <= k < i ==> self.mac@[k] == other.mac@[k],
            decreases 6 - i,
        {
            if self.mac[i] != other.mac[i] {
                assert(self@.mac[i as int] != other@.mac[i as int]);
                return false;
            }
            i = i + 1;
        }
        assert(self@.mac =~= other@.mac);
        true
    }
}

/// Law: the key says which address and port it belongs to, so that two backends
/// share a key only if they share both.
pub proof fn keys_identify_backends(a: BackendView, b: BackendView)
    ensures
        endpoint(a.key()) == Ok::<(Ipv4Addr, Option<u16>), EndpointError>(
            (a.ip, Some(port_or_zero(a.port))),
        ),
        a.key() == b.key() <==> a.ip == b.ip && port_or_zero(a.port) == port_or_zero(b.port),
{
    endpoint_reads_back(a.ip, port_or_zero(a.port));
    endpoint_reads_back(b.ip, port_or_zero(b.port));
}

/// Law: the rank by address and port compares addresses first, then ports, and
/// `None` comes before any port.
pub proof fn rank_is_lexicographic(a: BackendView, b: BackendView)
    ensures
        a.rank(true) < b.rank(true) <==> {
            ||| a.ip.bits < b.ip.bits
            ||| a.ip.bits == b.ip.bits && b.port is Some && (a.port is None || a.port->0
                < b.port->0)
        },
        a.rank(true) == b.rank(true) <==> a.ip == b.ip && a.port == b.port,
{
}

/// `s`, which is in order, with `x` put in behind everything that does not come
/// after it.
pub open spec fn insert_sorted(s: Seq<BackendView>, x: BackendView, by_port: bool) -> Seq<
    BackendView,
>
    decreases s.len(),
{
    if s.len() == 0 || s.last().rank(by_port) <= x.rank(by_port) {
        s.push(x)
    } else {
        insert_sorted(s.drop_last(), x, by_port).push(s.last())
    }
}

/// `s` put in order, elements of equal rank staying as they stood.
pub open spec fn stable_sorted(s: Seq<BackendView>, by_port: bool) -> Seq<BackendView>
    decreases s.len(),
{
    if s.len() == 0 {
        s
    } else {
        insert_sorted(stable_sorted(s.drop_last(), by_port), s.last(), by_port)
    }
}

/// `s` with every run of equal elements reduced to its first.
pub open spec fn deduped(s: Seq<BackendView>) -> Seq<BackendView>
    decreases s.len(),
{
    if s.len() <= 1 {
        s
    } else {
        let before = deduped(s.drop_last());
        if s[s.len() - 2] == s.last() {
            before
        } else {
            before.push(s.last())
        }
    }
}

/// Being in order by rank.
pub open spec fn in_order(s: Seq<BackendView>, by_port: bool) -> bool {
    forall|i: int, j: int|
        0 <= i <= j < s.len() ==> (#[trigger] s[i]).rank(by_port) <= (#[trigger] s[j]).rank(by_port)
}

/// The elements of `s` of the given rank, in the order in which they stand.
pub open spec fn of_rank(s: Seq<BackendView>, rank: int, by_port: bool) -> Seq<BackendView> {
    s.filter(|b: BackendView| b.rank(by_port) == rank)
}

proof fn lemma_of_rank_push(s: Seq<BackendView>, x: BackendView, rank: int, by_port: bool)
    ensures
        of_rank(s.push(x), rank, by_port) == (if x.rank(by_port) == rank {
            of_rank(s, rank, by_port).push(x)
        } else {
            of_rank(s, rank, by_port)
        }),
{
    reveal(Seq::filter);
    assert(s.push(x).drop_last() =~= s);
}

proof fn lemma_insert_sorted(s: Seq<BackendView>, x: BackendView, by_port: bool)
    requires
        in_order(s, by_port),
    ensures
        in_order(insert_sorted(s, x, by_port), by_port),
        insert_sorted(s, x, by_port).len() == s.len() + 1,
        forall|i: int|
            0 <= i <= s.len() ==> (#[trigger] insert_sorted(s, x, by_port)[i]) == x || s.contains(
                insert_sorted(s, x, by_port)[i],
            ),
        forall|rank: int|
            #[trigger] of_rank(insert_sorted(s, x, by_port), rank, by_port) == of_rank(
                s.push(x),
                rank,
                by_port,
            ),
    decreases s.len(),
{
    let r = insert_sorted(s, x, by_port);
    if s.len() == 0 || s.last().rank(by_port) <= x.rank(by_port) {
        assert forall|i: int| 0 <= i <= s.len() implies (#[trigger] r[i]) == x || s.contains(
            r[i],
        ) by {
            if i < s.len() {
                assert(r[i] == s[i]);
            }
        }
    } else {
        let t = s.drop_last();
        let u = insert_sorted(t, x, by_port);
        lemma_insert_sorted(t, x, by_port);
        assert forall|i: int| 0 <= i <= s.len() implies (#[trigger] r[i]) == x || s.contains(
            r[i],
        ) by {
            if i < s.len() {
                assert(r[i] == u[i]);
                if u[i] != x {
                    let k = choose|k: int| 0 <= k < t.len() && t[k] == u[i];
                    assert(s[k] == r[i]);
                }
            } else {
                assert(r[i] == s[s.len() - 1]);
            }
        }
        assert forall|i: int, j: int| 0 <= i <= j < r.len() implies (#[trigger] r[i]).rank(by_port)
            <= (#[trigger] r[j]).rank(by_port) by {
            if j < s.len() {
                assert(r[i] == u[i] && r[j] == u[j]);
            } else if i < s.len() {
                assert(r[i] == u[i]);
                if u[i] != x {
                    let k = choose|k: int| 0 <= k < t.len() && t[k] == u[i];
                    assert(s[k] == u[i]);
                }
            }
        }
        assert forall|rank: int| #[trigger] of_rank(r, rank, by_port) == of_rank(
            s.push(x),
            rank,
            by_port,
        ) by {
            assert(t.push(s.last()) =~= s);
            lemma_of_rank_push(u, s.last(), rank, by_port);
            lemma_of_rank_push(t, x, rank, by_port);
            lemma_of_rank_push(t, s.last(), rank, by_port);
            lemma_of_rank_push(s, x, rank, by_port);
        }
    }
}

/// Law: sorting puts the list in order and keeps, for each rank, exactly the
/// elements of that rank in the order in which they stood.
pub proof fn sorting_is_stable(s: Seq<BackendView>, by_port: bool)
    ensures
        in_order(stable_sorted(s, by_port), by_port),
        stable_sorted(s, by_port).len() == s.len(),
        forall|rank: int|
            #[trigger] of_rank(stable_sorted(s, by_port), rank, by_port) == of_rank(
                s,
                rank,
                by_port,
            ),
    decreases s.len(),
{
    if s.len() > 0 {
        let t = stable_sorted(s.drop_last(), by_port);
        sorting_is_stable(s.drop_last(), by_port);
        lemma_insert_sorted(t, s.last(), by_port);
        assert forall|rank: int| #[trigger] of_rank(
            stable_sorted(s, by_port),
            rank,
            by_port,
        ) == of_rank(s, rank, by_port) by {
            assert(s.drop_last().push(s.last()) =~= s);
            lemma_of_rank_push(s.drop_last(), s.last(), rank, by_port);
            lemma_of_rank_push(t, s.last(), rank, by_port);
            assert(of_rank(t, rank, by_port) == of_rank(s.drop_last(), rank, by_port));
            assert(of_rank(insert_sorted(t, s.last(), by_port), rank, by_port) == of_rank(
                t.push(s.last()),
                rank,
                by_port,
            ));
        }
    }
}

/// Law: sorting neither adds nor loses a backend.
pub proof fn sorting_keeps_the_backends(s: Seq<BackendView>, by_port: bool, b: BackendView)
    ensures
        stable_sorted(s, by_port).contains(b) <==> s.contains(b),
{
    let r = stable_sorted(s, by_port);
    let rank = b.rank(by_port);
    sorting_is_stable(s, by_port);
    assert(of_rank(r, rank, by_port) == of_rank(s, rank, by_port));
    lemma_of_rank_contains(r, b, by_port);
    lemma_of_rank_contains(s, b, by_port);
}

proof fn lemma_of_rank_contains(s: Seq<BackendView>, b: BackendView, by_port: bool)
    ensures
        of_rank(s, b.rank(by_port), by_port).contains(b) <==> s.contains(b),
    decreases s.len(),
{
    let rank = b.rank(by_port);
    let f = of_rank(s, rank, by_port);
    reveal(Seq::filter);
    if s.len() > 0 {
        let t = s.drop_last();
        let g = of_rank(t, rank, by_port);
        lemma_of_rank_contains(t, b, by_port);
        if s.contains(b) {
            let i = choose|i: int| 0 <= i < s.len() && s[i] == b;
            if i < t.len() {
                assert(t[i] == b);
                let k = choose|k: int| 0 <= k < g.len() && g[k] == b;
                assert(f[k] == b);
            } else {
                assert(f[f.len() - 1] == b);
            }
        }
        if f.contains(b) {
            let k = choose|k: int| 0 <= k < f.len() && f[k] == b;
            if k < g.len() {
                assert(g[k] == b);
                let i = choose|i: int| 0 <= i < t.len() && t[i] == b;
                assert(s[i] == b);
            } else {
                assert(s[s.len() - 1] == b);
            }
        }
    }
}

/// Inserting `x` in front of the elements from `pos` on, all of which come after
/// it.
proof fn lemma_insert_position(s: Seq<BackendView>, x: BackendView, by_port: bool, pos: int)
    requires
        0 <= pos <= s.len(),
        pos == 0 || s[pos - 1].rank(by_port) <= x.rank(by_port),
        forall|k: int| pos <= k < s.len() ==> (#[trigger] s[k]).rank(by_port) > x.rank(by_port),
    ensures
        insert_sorted(s, x, by_port) == s.insert(pos, x),
    decreases s.len(),
{
    if pos == s.len() {
        assert(s.insert(pos, x) =~= s.push(x));
    } else {
        let t = s.drop_last();
        assert(s[s.len() - 1].rank(by_port) > x.rank(by_port));
        lemma_insert_position(t, x, by_port, pos);
        assert(s.insert(pos, x) =~= t.insert(pos, x).push(s.last()));
    }
}

/// Sort a list of backends by address, or by address and port. Stable.
pub fn sort_backends(backends: &[Backend], by_port: bool) -> (out: Vec<Backend>)
    ensures
        views(out@) == stable_sorted(views(backends@), by_port),
{
    let mut out: Vec<Backend> = Vec::new();
    let mut i: usize = 0;
    assert(views(out@) =~= stable_sorted(views(backends@).take(0), by_port));
    while i < backends.len()
        invariant
            i <= backends@.len(),
            views(out@) == stable_sorted(views(backends@).take(i as int), by_port),
        decreases backends@.len() - i,
    {
        let x: Backend = backends[i];
        let r: u64 = x.rank(by_port);
        let ghost s = views(out@);
        let mut pos: usize = out.len();
        while pos > 0 && out[pos - 1].rank(by_port) > r
            invariant
                pos <= out@.len(),
                r == x@.rank(by_port),
                s == views(out@),
                forall|k: int|
                    pos <= k < s.len() ==> (#[trigger] s[k]).rank(by_port) > x@.rank(by_port),
            decreases pos,
        {
            assert(s[pos - 1] == out@[pos - 1]@);
            pos = pos - 1;
        }
        proof {
            if pos > 0 {
                assert(s[pos - 1] == out@[pos - 1]@);
            }
            lemma_insert_position(s, x@, by_port, pos as int);
        }
        out.insert(pos, x);
        assert(views(out@) =~= s.insert(pos as int, x@));
        proof {
            let all = views(backends@);
            assert(all.take(i + 1).drop_last() =~= all.take(i as int));
            assert(all.take(i + 1).last() == x@);
        }
        i = i + 1;
    }
    assert(views(backends@).take(backends@.len() as int) =~= views(backends@));
    out
}

/// Reduce every run of equal backends to its first.
pub fn dedup_backends(backends: &[Backend]) -> (out: Vec<Backend>)
    ensures
        views(out@) == deduped(views(backends@)),
{
    let mut out: Vec<Backend> = Vec::new();
    let ghost all = views(backends@);
    let mut i: usize = 0;
    assert(views(out@) =~= deduped(all.take(0)));
    while i < backends.len()
        invariant
            i <= backends@.len(),
            all == views(backends@),
            views(out@) == deduped(all.take(i as int)),
        decreases backends@.len() - i,
    {
        let ghost before = views(out@);
        assert(all.take(i + 1).drop_last() =~= all.take(i as int));
        if i == 0 || !backends[i - 1].same(&backends[i]) {
            out.push(backends[i]);
            assert(views(out@) =~= before.push(all[i as int]));
        }
        if i == 0 {
            assert(views(out@) =~= all.take(1));
        }
        i = i + 1;
    }
    assert(all.take(backends@.len() as int) =~= all);
    out
}

/// Law: removing repetitions keeps the order, leaves no two equal neighbours, and
/// neither adds nor loses a backend.
pub proof fn dedup_keeps_the_backends(s: Seq<BackendView>, by_port: bool)
    ensures
        in_order(s, by_port) ==> in_order(deduped(s), by_port),
        forall|i: int|
            0 <= i < deduped(s).len() - 1 ==> #[trigger] deduped(s)[i] != deduped(s)[i + 1],
        forall|b: BackendView| s.contains(b) <==> #[trigger] deduped(s).contains(b),
        s.len() > 0 ==> deduped(s).len() > 0 && deduped(s).last() == s.last(),
    decreases s.len(),
{
    let r = deduped(s);
    if s.len() > 1 {
        let t = s.drop_last();
        let before = deduped(t);
        dedup_keeps_the_backends(t, by_port);
        assert(t.last() == s[s.len() - 2]);
        assert forall|b: BackendView| s.contains(b) <==> #[trigger] r.contains(b) by {
            if s.contains(b) {
                let k = choose|k: int| 0 <= k < s.len() && s[k] == b;
                if k < t.len() {
                    assert(t[k] == b);
                    assert(before.contains(b));
                    let m = choose|m: int| 0 <= m < before.len() && before[m] == b;
                    assert(r[m] == b);
                } else {
                    assert(r[r.len() - 1] == b);
                }
            }
            if r.contains(b) {
                let k = choose|k: int| 0 <= k < r.len() && r[k] == b;
                if k < before.len() {
                    assert(before[k] == b);
                    assert(before.contains(b));
                    let m = choose|m: int| 0 <= m < t.len() && t[m] == b;
                    assert(s[m] == b);
                } else {
                    assert(s[s.len() - 1] == b);
                }
            }
        }
        if in_order(s, by_port) {
            assert(in_order(t, by_port)) by {
                assert forall|i: int, j: int| 0 <= i <= j < t.len() implies (
                #[trigger] t[i]).rank(by_port) <= (#[trigger] t[j]).rank(by_port) by {
                    assert(s[i].rank(by_port) <= s[j].rank(by_port));
                }
            }
            assert forall|i: int, j: int| 0 <= i <= j < r.len() implies (
            #[trigger] r[i]).rank(by_port) <= (#[trigger] r[j]).rank(by_port) by {
                if j < before.len() {
                    assert(before[i].rank(by_port) <= before[j].rank(by_port));
                } else {
                    if i < before.len() {
                        assert(before.contains(before[i]));
                        let m = choose|m: int| 0 <= m < t.len() && t[m] == before[i];
                        assert(s[m].rank(by_port) <= s[s.len() - 1].rank(by_port));
                    }
                }
            }
        }
    }
}

/// Law: the rank by address alone compares the addresses.
pub proof fn rank_by_address(a: BackendView, b: BackendView)
    ensures
        a.rank(false) < b.rank(false) <==> a.ip.bits < b.ip.bits,
        a.rank(false) == b.rank(false) <==> a.ip == b.ip,
{
}

/// Law: the key is the address in dotted decimal, a colon and the port in decimal, zero
/// standing for a backend that keeps the port of the packet.
pub proof fn keys_are_addresses_with_ports(b: BackendView)
    ensures
        b.port is Some ==> b.key() == b.ip.text() + seq![':'] + decimal(b.port->0 as nat),
        b.port is None ==> b.key() == b.ip.text() + seq![':', '0'],
{
    if b.port is None {
        assert(decimal(0) =~= seq!['0']);
        assert(b.key() =~= b.ip.text() + seq![':', '0']);
    } else {
        assert(b.key() =~= b.ip.text() + seq![':'] + decimal(b.port->0 as nat));
    }
}

/// Law: a backend at the end of a list stays when repetitions are dropped, unless it is
/// the same as the one before it.
pub proof fn only_repetitions_are_dropped(s: Seq<BackendView>, x: BackendView)
    ensures
        deduped(Seq::empty()) == Seq::<BackendView>::empty(),
        deduped(seq![x]) == seq![x],
        s.len() > 0 && s.last() == x ==> deduped(s.push(x)) == deduped(s),
        s.len() > 0 && s.last() != x ==> deduped(s.push(x)) == deduped(s).push(x),
{
    assert(s.push(x).drop_last() =~= s);
}

} // verus!
