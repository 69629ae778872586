//! Matching a system audio endpoint to a dynamic device: the device
//! topology of an endpoint carries the subdevice reference name
//! (`WaveCap-N`, `TopologyCap-N` for capture, `Wave-N`, `Topology-N` for
//! render), and `N` is the device's ring id.

use vstd::prelude::*;

use crate::text::{
    chars_of, contains_seq, dec_value, find_seq, is_ascii_digit, lowercase_of, occurs_at, to_lowercase,
};

verus! {

/// The longest run of ASCII digits in `s` from position `from` on.
pub open spec fn digit_run(s: Seq<char>, from: int) -> Seq<char>
    decreases s.len() - from,
{
    if 0 <= from < s.len() && is_ascii_digit(s[from]) {
        seq![s[from]] + digit_run(s, from + 1)
    } else {
        Seq::empty()
    }
}

/// `p` is the first position where `needle` occurs in `hay`.
pub open spec fn first_at(hay: Seq<char>, needle: Seq<char>, p: int) -> bool {
    occurs_at(hay, needle, p) && forall|j: int| 0 <= j < p ==> !occurs_at(hay, needle, j)
}

/// The id right after the first `kw` in `s`: the digits that follow it,
/// when there are some and their value fits a `u32`.
pub open spec fn id_after(s: Seq<char>, kw: Seq<char>) -> Option<u32> {
    if contains_seq(s, kw) {
        let p = choose|p: int| first_at(s, kw, p);
        let d = digit_run(s, p + kw.len());
        if d.len() > 0 && dec_value(d) <= u32::MAX {
            Some(dec_value(d) as u32)
        } else {
            None
        }
    } else {
        None
    }
}

/// The ring id a lower-cased topology string carries: the keywords are
/// tried in the order `wavecap-`, `topologycap-`, `wave-`, `topology-`, and
/// the first that is followed by a valid id gives it.
pub open spec fn spec_ring_id(s: Seq<char>) -> Option<u32> {
    match id_after(s, "wavecap-"@) {
        Some(n) => Some(n),
        None => match id_after(s, "topologycap-"@) {
            Some(n) => Some(n),
            None => match id_after(s, "wave-"@) {
                Some(n) => Some(n),
                None => id_after(s, "topology-"@),
            },
        },
    }
}

proof fn lemma_first_at_unique(hay: Seq<char>, needle: Seq<char>, p: int, q: int)
    requires
        first_at(hay, needle, p),
        first_at(hay, needle, q),
    ensures
        p == q,
{
    if p < q {
        assert(!occurs_at(hay, needle, p));
    } else if q < p {
        assert(!occurs_at(hay, needle, q));
    }
}

proof fn lemma_digit_run_step(s: Seq<char>, from: int, k: int)
    requires
        0 <= from,
        0 <= k,
        k <= digit_run(s, from).len(),
    ensures
        k == digit_run(s, from).len() ==> !(from + k < s.len() && is_ascii_digit(s[from + k])),
        k < digit_run(s, from).len() ==> from + k < s.len() && is_ascii_digit(s[from + k]) && digit_run(
            s,
            from,
        )[k] == s[from + k],
    decreases k,
{
    if k > 0 {
        lemma_digit_run_step(s, from + 1, k - 1);
    }
}

proof fn lemma_dec_value_grows(d: Seq<char>, c: char)
    requires
        is_ascii_digit(c),
    ensures
        dec_value(d.push(c)) == dec_value(d) * 10 + (c as nat - 48),
        dec_value(d.push(c)) >= dec_value(d),
{
    assert(d.push(c).drop_last() =~= d);
}

/// The id after the first `kw` in `s`, as `id_after` states it.
fn id_after_keyword(s: &Vec<char>, kw: &str) -> (r: Option<u32>)
    ensures
        r == id_after(s@, kw@),
{
    let kv = chars_of(kw);
    let p = match find_seq(s, &kv) {
        Some(p) => p,
        None => {
            return None;
        },
    };
    proof {
        let q = choose|q: int| first_at(s@, kw@, q);
        assert(first_at(s@, kw@, p as int));
        lemma_first_at_unique(s@, kw@, p as int, q);
    }
    let slen = s.len();
    assert(p + kv@.len() <= slen);
    let start = p + kv.len();
    let ghost run = digit_run(s@, start as int);
    let mut i: usize = start;
    let mut acc: u64 = 0;
    let mut big = false;
    proof {
        lemma_digit_run_step(s@, start as int, 0);
    }
    while i < s.len() && '0' <= s[i] && s[i] <= '9'
        invariant
            start <= i <= s@.len(),
            start == p + kw@.len(),
            run == digit_run(s@, start as int),
            i - start <= run.len(),
            i - start < run.len() ==> i < s@.len() && is_ascii_digit(s@[i as int]),
            i - start == run.len() ==> !(i < s@.len() && is_ascii_digit(s@[i as int])),
            big == (dec_value(run.take(i - start)) > u32::MAX),
            !big ==> acc == dec_value(run.take(i - start)),
        decreases s@.len() - i,
    {
        let k = i - start;
        proof {
            lemma_digit_run_step(s@, start as int, k as int);
            lemma_digit_run_step(s@, start as int, k + 1);
            assert(run.take(k + 1) =~= run.take(k as int).push(s@[i as int]));
            lemma_dec_value_grows(run.take(k as int), s@[i as int]);
        }
        let d = (s[i] as u32 - 48) as u64;
        if !big {
            acc = acc * 10 + d;
            if acc > 0xFFFF_FFFF {
                big = true;
            }
        }
        i += 1;
    }
    proof {
        assert(run.take(i - start) =~= run);
    }
    if i == start || big {
        None
    } else {
        Some(acc as u32)
    }
}

/// The ring id an already lower-cased topology string carries (see
/// `spec_ring_id`).
pub fn ring_id_in(lowered: &str) -> (r: Option<u32>)
    ensures
        r == spec_ring_id(lowered@),
{
    let s = chars_of(lowered);
    match id_after_keyword(&s, "wavecap-") {
        Some(n) => {
            return Some(n);
        },
        None => {},
    }
    match id_after_keyword(&s, "topologycap-") {
        Some(n) => {
            return Some(n);
        },
        None => {},
    }
    match id_after_keyword(&s, "wave-") {
        Some(n) => {
            return Some(n);
        },
        None => {},
    }
    id_after_keyword(&s, "topology-")
}

/// The ring id a device-topology string carries, matched without regard
/// to case.
pub fn parse_ring_id(topology_id: &str) -> (r: Option<u32>)
    ensures
        r == spec_ring_id(lowercase_of(topology_id@)),
{
    let lowered = to_lowercase(topology_id);
    ring_id_in(lowered.as_str())
}

/// An endpoint belongs to dynamic device `ring_id` when its topology id or
/// its connectors' ids carry that ring id.
pub fn endpoint_carries_ring(topology_id: &str, connected_ids: &str, ring_id: u32) -> (b: bool)
    ensures
        b == (spec_ring_id(lowercase_of(topology_id@)) == Some(ring_id) || spec_ring_id(
            lowercase_of(connected_ids@),
        ) == Some(ring_id)),
{
    match parse_ring_id(topology_id) {
        Some(n) => {
            if n == ring_id {
                return true;
            }
        },
        None => {},
    }
    match parse_ring_id(connected_ids) {
        Some(n) => n == ring_id,
        None => false,
    }
}

} // verus!
