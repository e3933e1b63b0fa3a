//! Finding the other nodes of the network: the scan target for the own address, and the
//! addresses in the scan's output that are not the own one.
use vstd::prelude::*;
use crate::number::{decimal, push_decimal};
use crate::text::{chars_of, line_ranges, lines, push_char, push_str, ranges_within, slices, string_of};

verus! {

/// The four octets of an IPv4 address held as a number, most significant first.
pub open spec fn octet(ip: u32, k: nat) -> nat {
    if k == 0 {
        (ip / 0x100_0000) as nat
    } else if k == 1 {
        (ip / 0x1_0000 % 0x100) as nat
    } else if k == 2 {
        (ip / 0x100 % 0x100) as nat
    } else {
        (ip % 0x100) as nat
    }
}

/// The dotted decimal text of an IPv4 address (its `Display` form).
pub open spec fn dotted(ip: u32) -> Seq<char> {
    decimal(octet(ip, 0)) + "."@ + decimal(octet(ip, 1)) + "."@ + decimal(octet(ip, 2)) + "."@
        + decimal(octet(ip, 3))
}

/// The scan target for the network of `ip`: its address with the last octet replaced by `*`.
pub open spec fn scan_target(ip: u32) -> Seq<char> {
    decimal(octet(ip, 0)) + "."@ + decimal(octet(ip, 1)) + "."@ + decimal(octet(ip, 2)) + ".*"@
}

fn push_octets(s: &mut String, ip: u32)
    ensures
        final(s)@ == old(s)@ + decimal(octet(ip, 0)) + "."@ + decimal(octet(ip, 1)) + "."@ + decimal(
            octet(ip, 2),
        ),
{
    push_decimal(s, (ip / 0x100_0000) as u64);
    push_str(s, ".");
    push_decimal(s, (ip / 0x1_0000 % 0x100) as u64);
    push_str(s, ".");
    push_decimal(s, (ip / 0x100 % 0x100) as u64);
}

/// The dotted decimal text of `ip`.
pub fn ip_string(ip: u32) -> (s: String)
    ensures
        s@ == dotted(ip),
{
    let mut s = String::new();
    push_octets(&mut s, ip);
    push_str(&mut s, ".");
    push_decimal(&mut s, (ip % 0x100) as u64);
    s
}

/// The target that the network scan is given for the own address `ip`.
pub fn scan_target_of(ip: u32) -> (s: String)
    ensures
        s@ == scan_target(ip),
{
    let mut s = String::new();
    push_octets(&mut s, ip);
    push_str(&mut s, ".*");
    s
}

/// The lines of the scan's output other than the own address.
pub open spec fn peer_lines(list: Seq<char>, own: u32) -> Seq<Seq<char>> {
    lines(list).filter(|l: Seq<char>| l != dotted(own))
}

/// The addresses, one per line of `list`, other than the own address `own_ip`.
pub fn peers(list: &str, own_ip: u32) -> (r: Vec<String>)
    ensures
        r@.map_values(|s: String| s@) == peer_lines(list@, own_ip),
{
    let own = ip_string(own_ip);
    let cs = chars_of(list);
    let lrs = line_ranges(&cs, 0, cs.len());
    assert(cs@.subrange(0, cs@.len() as int) == cs@);
    let ghost ls = lines(list@);
    let ghost p = |l: Seq<char>| l != dotted(own_ip);
    let mut r: Vec<String> = Vec::new();
    let mut j: usize = 0;
    assert(ls.take(0).filter(p) =~= Seq::<Seq<char>>::empty());
    while j < lrs.len()
        invariant
            cs@ == list@,
            own@ == dotted(own_ip),
            ls == lines(list@),
            p == (|l: Seq<char>| l != dotted(own_ip)),
            slices(cs@, lrs@) == ls,
            ranges_within(lrs@, 0, cs@.len() as int),
            j <= lrs@.len(),
            r@.map_values(|s: String| s@) == ls.take(j as int).filter(p),
        decreases lrs@.len() - j,
    {
        let rg = lrs[j];
        assert(rg == lrs@[j as int]);
        let line = string_of(&cs, rg.0, rg.1);
        assert(line@ == ls[j as int]);
        proof {
            assert(ls.take(j + 1) == ls.take(j as int).push(ls[j as int]));
            ls.take(j as int).lemma_filter_push(ls[j as int], p);
        }
        if line != own {
            let ghost before = r@;
            r.push(line);
            assert(r@.map_values(|s: String| s@) =~= before.map_values(|s: String| s@).push(ls[j as int]));
        }
        j = j + 1;
    }
    assert(ls.take(ls.len() as int) == ls);
    r
}

/// The peer law: every line of the scan that differs from the own address is kept, every
/// kept line is a line of the scan that differs from it, and the kept lines are the lines
/// of the scan less those equal to the own address, so none but the own address is dropped.
pub proof fn law_peers_drop_only_own(list: Seq<char>, own: u32)
    ensures
        forall|i: int|
            0 <= i < lines(list).len() && lines(list)[i] != dotted(own) ==> #[trigger] peer_lines(
                list,
                own,
            ).contains(lines(list)[i]),
        forall|i: int|
            0 <= i < peer_lines(list, own).len() ==> #[trigger] peer_lines(list, own)[i] != dotted(own)
                && lines(list).contains(peer_lines(list, own)[i]),
        peer_lines(list, own).len() + lines(list).filter(|l: Seq<char>| l == dotted(own)).len()
            == lines(list).len(),
{
    let ls = lines(list);
    let p = |l: Seq<char>| l != dotted(own);
    let q = |l: Seq<char>| l == dotted(own);
    assert(peer_lines(list, own) == ls.filter(p));
    assert forall|i: int| 0 <= i < ls.len() && ls[i] != dotted(own) implies #[trigger] ls.filter(p).contains(
        ls[i],
    ) by {
        ls.lemma_filter_contains(p, i);
    }
    assert forall|i: int| 0 <= i < ls.filter(p).len() implies #[trigger] ls.filter(p)[i] != dotted(own)
        && ls.contains(ls.filter(p)[i]) by {
        ls.lemma_filter_pred(p, i);
        ls.lemma_filter_contains_rev(p, ls.filter(p)[i]);
    }
    lemma_filter_split_len(ls, dotted(own));
}

proof fn lemma_filter_split_len(ls: Seq<Seq<char>>, x: Seq<char>)
    ensures
        ls.filter(|l: Seq<char>| l != x).len() + ls.filter(|l: Seq<char>| l == x).len() == ls.len(),
    decreases ls.len(),
{
    let p = |l: Seq<char>| l != x;
    let q = |l: Seq<char>| l == x;
    if ls.len() > 0 {
        let prev = ls.drop_last();
        lemma_filter_split_len(prev, x);
        assert(ls == prev.push(ls.last()));
        prev.lemma_filter_push(ls.last(), p);
        prev.lemma_filter_push(ls.last(), q);
    } else {
        assert(ls.filter(p) =~= Seq::<Seq<char>>::empty());
        assert(ls.filter(q) =~= Seq::<Seq<char>>::empty());
    }
}

} // verus!
