//! Context→device affinity: each execution context's probe output is parsed
//! by a two-state line parser (a marker line, then at most one device-list
//! line), and the completed forward mapping is inverted into a device→context
//! mapping with ascending, duplicate-free context lists. A failure marker in
//! any context's output fails the whole query; no partial mapping escapes.

use vstd::prelude::*;

use std::collections::HashMap;

use crate::runner::CommandRunner;
use crate::runner::QueryError;
use crate::lists_view;
use crate::text::begins_with_pattern;
use crate::text::begins_with_seq;
use crate::text::lines_view;
use crate::text::parse_devices_line;
use crate::text::parse_devices_line_bytes;

verus! {

broadcast use vstd::std_specs::hash::group_hash_axioms;

/// The tool's marker for a probe it could not answer: "Failed".
pub open spec fn failed_marker() -> Seq<u8> {
    seq![70u8, 97u8, 105u8, 108u8, 101u8, 100u8]
}

/// The tool's marker for a context with no affine devices: "No GPUs".
pub open spec fn no_gpus_marker() -> Seq<u8> {
    seq![78u8, 111u8, 32u8, 71u8, 80u8, 85u8, 115u8]
}

/// The tool's marker announcing a device list: "The GPUs".
pub open spec fn gpus_marker() -> Seq<u8> {
    seq![84u8, 104u8, 101u8, 32u8, 71u8, 80u8, 85u8, 115u8]
}

fn failed_marker_bytes() -> (v: Vec<u8>)
    ensures
        v@ == failed_marker(),
{
    let mut v: Vec<u8> = Vec::new();
    v.push(70);
    v.push(97);
    v.push(105);
    v.push(108);
    v.push(101);
    v.push(100);
    proof {
        assert(v@ =~= failed_marker());
    }
    v
}

fn no_gpus_marker_bytes() -> (v: Vec<u8>)
    ensures
        v@ == no_gpus_marker(),
{
    let mut v: Vec<u8> = Vec::new();
    v.push(78);
    v.push(111);
    v.push(32);
    v.push(71);
    v.push(80);
    v.push(85);
    v.push(115);
    proof {
        assert(v@ =~= no_gpus_marker());
    }
    v
}

fn gpus_marker_bytes() -> (v: Vec<u8>)
    ensures
        v@ == gpus_marker(),
{
    let mut v: Vec<u8> = Vec::new();
    v.push(84);
    v.push(104);
    v.push(101);
    v.push(32);
    v.push(71);
    v.push(80);
    v.push(85);
    v.push(115);
    proof {
        assert(v@ =~= gpus_marker());
    }
    v
}

/// The abstract outcome of parsing one context's probe output.
#[verifier::ext_equal]
pub ghost enum ContextReport {
    /// The first line carried the failure marker.
    Failed,
    /// The devices affine to the context, possibly none.
    Devices(Seq<usize>),
    /// No line, an unrecognized first line, or an unparsable device list.
    Malformed,
}

/// The two-state parse of one context's output: the first line must carry
/// exactly one of the three markers; after the "devices follow" marker, the
/// second line is the comma-separated device list, and every later line is
/// ignored.
pub open spec fn ctx_parse_spec(lines: Seq<Seq<u8>>) -> ContextReport {
    if lines.len() == 0 {
        ContextReport::Malformed
    } else if begins_with_seq(lines[0], failed_marker()) {
        ContextReport::Failed
    } else if begins_with_seq(lines[0], no_gpus_marker()) {
        ContextReport::Devices(Seq::empty())
    } else if begins_with_seq(lines[0], gpus_marker()) {
        if lines.len() < 2 {
            ContextReport::Malformed
        } else {
            match parse_devices_line(lines[1]) {
                Some(ds) => ContextReport::Devices(ds),
                None => ContextReport::Malformed,
            }
        }
    } else {
        ContextReport::Malformed
    }
}

/// The concrete outcome of parsing one context's probe output.
#[derive(Clone, Debug)]
pub enum ContextParse {
    Failed,
    Devices(Vec<usize>),
    Malformed,
}

impl View for ContextParse {
    type V = ContextReport;

    open spec fn view(&self) -> ContextReport {
        match self {
            ContextParse::Failed => ContextReport::Failed,
            ContextParse::Devices(v) => ContextReport::Devices(v@),
            ContextParse::Malformed => ContextReport::Malformed,
        }
    }
}

/// Parses one context's probe output with the two-state line parser.
pub fn parse_context_lines(lines: &Vec<Vec<u8>>) -> (r: ContextParse)
    ensures
        r@ == ctx_parse_spec(lines_view(lines@)),
{
    if lines.len() == 0 {
        return ContextParse::Malformed;
    }
    proof {
        assert(lines_view(lines@)[0] == lines@[0]@);
    }
    let failed = failed_marker_bytes();
    if begins_with_pattern(&lines[0], &failed) {
        return ContextParse::Failed;
    }
    let no_gpus = no_gpus_marker_bytes();
    if begins_with_pattern(&lines[0], &no_gpus) {
        return ContextParse::Devices(Vec::new());
    }
    let gpus = gpus_marker_bytes();
    if begins_with_pattern(&lines[0], &gpus) {
        if lines.len() < 2 {
            return ContextParse::Malformed;
        }
        proof {
            assert(lines_view(lines@)[1] == lines@[1]@);
        }
        match parse_devices_line_bytes(&lines[1]) {
            Some(v) => ContextParse::Devices(v),
            None => ContextParse::Malformed,
        }
    } else {
        ContextParse::Malformed
    }
}

/// Maps one context's parse report to the query's verdict for that context,
/// the whole-query fail-fast policy in one place: a failure marker fails the
/// query as the tool's own failure, an unrecognized or unparsable output is
/// a hard parse error, and only a device list (possibly empty) lets the
/// query continue with that list.
pub fn context_verdict(report: ContextParse) -> (r: Result<Vec<usize>, QueryError>)
    ensures
        (match report@ {
            ContextReport::Failed => r == Result::<Vec<usize>, QueryError>::Err(
                QueryError::ToolReportedFailure,
            ),
            ContextReport::Malformed => r == Result::<Vec<usize>, QueryError>::Err(
                QueryError::MalformedOutput,
            ),
            ContextReport::Devices(ds) => r is Ok && r->Ok_0@ == ds,
        }),
{
    match report {
        ContextParse::Failed => Err(QueryError::ToolReportedFailure),
        ContextParse::Malformed => Err(QueryError::MalformedOutput),
        ContextParse::Devices(v) => Ok(v),
    }
}

/// The forward mapping covers exactly the context range.
pub open spec fn forward_wf(f: Map<usize, Seq<usize>>, n: nat) -> bool {
    forall|c: usize| #[trigger] f.contains_key(c) <==> c < n
}

/// Each element is strictly smaller than the next: ascending, no duplicates.
pub open spec fn strictly_ascending(s: Seq<usize>) -> bool {
    forall|i: int, j: int| 0 <= i < j < s.len() ==> s[i] < s[j]
}

/// `inv` is the exact relational inverse of `f`: a device is a key exactly
/// when some context lists it, and its context list holds exactly the
/// contexts that list the device, strictly ascending and never empty.
pub open spec fn inverse_wf(f: Map<usize, Seq<usize>>, inv: Map<usize, Seq<usize>>) -> bool {
    &&& forall|d: usize|
        #[trigger] inv.contains_key(d) <==> exists|x: usize| f.contains_key(x) && #[trigger] f[
            x
        ].contains(d)
    &&& forall|d: usize|
        #[trigger] inv.contains_key(d) ==> inv[d].len() > 0 && strictly_ascending(inv[d])
    &&& forall|d: usize, x: usize|
        inv.contains_key(d) && #[trigger] inv[d].contains(x) ==> f.contains_key(x) && f[
            x
        ].contains(d)
    &&& forall|d: usize, x: usize|
        f.contains_key(x) && #[trigger] f[x].contains(d) && inv.contains_key(d) ==> inv[
            d
        ].contains(x)
}

/// Context `x` relates to device `d` in the prefix of the forward map that
/// the inversion has consumed: every context below `c` entirely, plus the
/// first `j` listed devices of context `c`.
pub open spec fn rel_upto(f: Map<usize, Seq<usize>>, c: usize, j: int, x: usize, d: usize) -> bool {
    f.contains_key(x) && ((x < c && f[x].contains(d)) || (x == c && f[c].take(j).contains(d)))
}

/// The inversion's loop invariant: `inv` is the exact inverse of the
/// consumed prefix, with strictly ascending, non-empty context lists.
pub open spec fn inverse_partial(
    f: Map<usize, Seq<usize>>,
    inv: Map<usize, Seq<usize>>,
    c: usize,
    j: int,
) -> bool {
    &&& forall|d: usize|
        #[trigger] inv.contains_key(d) <==> exists|x: usize| #[trigger] rel_upto(f, c, j, x, d)
    &&& forall|d: usize|
        #[trigger] inv.contains_key(d) ==> inv[d].len() > 0 && strictly_ascending(inv[d])
    &&& forall|d: usize, x: usize|
        inv.contains_key(d) && #[trigger] inv[d].contains(x) ==> rel_upto(f, c, j, x, d)
    &&& forall|d: usize, x: usize|
        #[trigger] rel_upto(f, c, j, x, d) ==> inv.contains_key(d) && inv[d].contains(x)
}

/// The affinity snapshot: the forward context→devices mapping and its
/// inverse device→contexts mapping.
#[derive(Clone, Debug)]
pub struct NvsmiAffinity {
    pub threads_to_devices: HashMap<usize, Vec<usize>>,
    pub devices_to_threads: HashMap<usize, Vec<usize>>,
}

/// The mathematical view of an affinity snapshot.
#[verifier::ext_equal]
pub ghost struct AffinityView {
    pub threads_to_devices: Map<usize, Seq<usize>>,
    pub devices_to_threads: Map<usize, Seq<usize>>,
}

impl View for NvsmiAffinity {
    type V = AffinityView;

    open spec fn view(&self) -> AffinityView {
        AffinityView {
            threads_to_devices: lists_view(self.threads_to_devices@),
            devices_to_threads: lists_view(self.devices_to_threads@),
        }
    }
}

/// A well-formed affinity snapshot for `n` contexts: the forward mapping has
/// every context in `[0, n)` as a key, and the device mapping is its exact
/// relational inverse.
pub open spec fn affinity_wf(a: AffinityView, n: nat) -> bool {
    &&& forward_wf(a.threads_to_devices, n)
    &&& inverse_wf(a.threads_to_devices, a.devices_to_threads)
}

/// One inversion step: after recording that context `c` lists device `d` at
/// position `j` of its device list, the partial-inverse invariant advances
/// by one listed device.
proof fn lemma_invert_step(
    f: Map<usize, Seq<usize>>,
    iv0: Map<usize, Seq<usize>>,
    iv1: Map<usize, Seq<usize>>,
    c: usize,
    j: int,
    d: usize,
)
    requires
        inverse_partial(f, iv0, c, j),
        f.contains_key(c),
        0 <= j < f[c].len(),
        f[c][j] == d,
        (if !iv0.contains_key(d) {
            iv1 == iv0.insert(d, seq![c])
        } else if iv0[d].contains(c) {
            iv1 == iv0
        } else {
            iv1 == iv0.insert(d, iv0[d].push(c))
        }),
    ensures
        inverse_partial(f, iv1, c, j + 1),
{
    assert(f[c].take(j + 1)[j] == d);
    assert(f[c].take(j + 1).contains(d));
    assert(rel_upto(f, c, j + 1, c, d));
    assert forall|x: usize, dd: usize| #[trigger] rel_upto(f, c, j, x, dd) implies rel_upto(
        f,
        c,
        j + 1,
        x,
        dd,
    ) by {
        if x == c && f[c].take(j).contains(dd) {
            let ix = choose|ix: int|
                0 <= ix < f[c].take(j).len() && #[trigger] f[c].take(j)[ix] == dd;
            assert(f[c].take(j + 1)[ix] == dd);
        }
    }
    assert forall|x: usize, dd: usize|
        #[trigger] rel_upto(f, c, j + 1, x, dd) && !(x == c && dd == d) implies rel_upto(
        f,
        c,
        j,
        x,
        dd,
    ) by {
        if x == c && f[c].take(j + 1).contains(dd) {
            let ix = choose|ix: int|
                0 <= ix < f[c].take(j + 1).len() && #[trigger] f[c].take(j + 1)[ix] == dd;
            if ix == j {
                assert(dd == d);
            } else {
                assert(f[c].take(j)[ix] == dd);
            }
        }
    }
    assert forall|dd: usize| #[trigger] iv1.contains_key(dd) <==> exists|x: usize|
        #[trigger] rel_upto(f, c, j + 1, x, dd) by {
        if dd == d {
            assert(iv1.contains_key(d));
            assert(rel_upto(f, c, j + 1, c, d));
        } else {
            if iv1.contains_key(dd) {
                assert(iv0.contains_key(dd));
                let x = choose|x: usize| #[trigger] rel_upto(f, c, j, x, dd);
                assert(rel_upto(f, c, j + 1, x, dd));
            }
            if exists|x: usize| #[trigger] rel_upto(f, c, j + 1, x, dd) {
                let x = choose|x: usize| #[trigger] rel_upto(f, c, j + 1, x, dd);
                assert(rel_upto(f, c, j, x, dd));
                assert(iv0.contains_key(dd));
            }
        }
    }
    assert forall|dd: usize, x: usize|
        iv1.contains_key(dd) && #[trigger] iv1[dd].contains(x) implies rel_upto(
        f,
        c,
        j + 1,
        x,
        dd,
    ) by {
        if dd == d {
            if !iv0.contains_key(d) {
                let ix = choose|ix: int| 0 <= ix < iv1[d].len() && iv1[d][ix] == x;
                assert(x == c);
            } else if iv0[d].contains(c) {
                assert(iv0[d].contains(x));
                assert(rel_upto(f, c, j, x, d));
            } else {
                let ix = choose|ix: int| 0 <= ix < iv1[d].len() && iv1[d][ix] == x;
                if ix < iv1[d].len() - 1 {
                    assert(iv0[d][ix] == x);
                    assert(iv0[d].contains(x));
                    assert(rel_upto(f, c, j, x, d));
                } else {
                    assert(x == c);
                }
            }
        } else {
            assert(iv0.contains_key(dd) && iv0[dd] == iv1[dd]);
            assert(rel_upto(f, c, j, x, dd));
        }
    }
    assert forall|dd: usize, x: usize| #[trigger] rel_upto(f, c, j + 1, x, dd) implies
        iv1.contains_key(dd) && iv1[dd].contains(x) by {
        if dd == d && x == c {
            if !iv0.contains_key(d) {
                assert(iv1[d][0] == c);
            } else if iv0[d].contains(c) {
                assert(iv1[d].contains(c));
            } else {
                assert(iv1[d][iv1[d].len() - 1] == c);
            }
        } else {
            assert(rel_upto(f, c, j, x, dd));
            assert(iv0.contains_key(dd) && iv0[dd].contains(x));
            if dd == d && iv0.contains_key(d) && !iv0[d].contains(c) {
                let ix = choose|ix: int| 0 <= ix < iv0[d].len() && iv0[d][ix] == x;
                assert(iv1[d][ix] == x);
            }
        }
    }
    assert forall|dd: usize| #[trigger] iv1.contains_key(dd) implies iv1[dd].len() > 0
        && strictly_ascending(iv1[dd]) by {
        if dd == d {
            if !iv0.contains_key(d) {
                assert(iv1[d] == seq![c]);
                assert(strictly_ascending(iv1[d]));
            } else if !iv0[d].contains(c) {
                assert forall|x: usize| #[trigger] iv0[d].contains(x) implies x < c by {
                    assert(rel_upto(f, c, j, x, d));
                }
                assert forall|i1: int, i2: int|
                    0 <= i1 < i2 < iv1[d].len() implies iv1[d][i1] < iv1[d][i2] by {
                    if i2 == iv1[d].len() - 1 {
                        assert(iv0[d][i1] == iv1[d][i1]);
                        assert(iv0[d].contains(iv0[d][i1]));
                        assert(iv1[d][i2] == c);
                    } else {
                        assert(iv0[d][i1] < iv0[d][i2]);
                    }
                }
                assert(strictly_ascending(iv1[d]));
            }
        }
    }
    assert(inverse_partial(f, iv1, c, j + 1));
}

/// Inverts a completed forward mapping: every (context, device) pair becomes
/// a (device, context) pair, contexts gathered ascending without duplicates;
/// a device listed by no context is absent from the result.
pub fn invert(forward: &HashMap<usize, Vec<usize>>, num_threads: usize) -> (inv: HashMap<
    usize,
    Vec<usize>,
>)
    requires
        forward_wf(lists_view(forward@), num_threads as nat),
    ensures
        inverse_wf(lists_view(forward@), lists_view(inv@)),
{
    let ghost f = lists_view(forward@);
    let mut inv: HashMap<usize, Vec<usize>> = HashMap::new();
    proof {
        assert forall|d: usize| #[trigger] lists_view(inv@).contains_key(d) <==> exists|x: usize|
            #[trigger] rel_upto(f, 0, 0, x, d) by {
            if exists|x: usize| #[trigger] rel_upto(f, 0, 0, x, d) {
                let x = choose|x: usize| #[trigger] rel_upto(f, 0, 0, x, d);
                assert(f[0usize].take(0) =~= Seq::<usize>::empty());
            }
        }
        assert(inverse_partial(f, lists_view(inv@), 0, 0));
    }
    let mut c: usize = 0;
    while c < num_threads
        invariant
            c <= num_threads,
            f == lists_view(forward@),
            forward_wf(f, num_threads as nat),
            inverse_partial(f, lists_view(inv@), c, 0),
        decreases num_threads - c,
    {
        let devs = match forward.get(&c) {
            Some(devs) => devs,
            None => {
                proof {
                    assert(f.contains_key(c));
                    assert(false);
                }
                return inv;
            },
        };
        let dn = devs.len();
        proof {
            assert(devs@ == f[c]);
        }
        let mut j: usize = 0;
        while j < dn
            invariant
                j <= dn,
                c < num_threads,
                f == lists_view(forward@),
                forward_wf(f, num_threads as nat),
                f.contains_key(c),
                devs@ == f[c],
                dn == devs@.len(),
                inverse_partial(f, lists_view(inv@), c, j as int),
            decreases dn - j,
        {
            let d = devs[j];
            let ghost iv0 = lists_view(inv@);
            if inv.contains_key(&d) {
                proof {
                    assert(iv0.contains_key(d));
                    assert(iv0[d].len() > 0);
                }
                let mut v = match inv.remove(&d) {
                    Some(v) => v,
                    None => Vec::new(),
                };
                let lastv = v[v.len() - 1];
                proof {
                    assert(v@ == iv0[d]);
                    assert(iv0[d][iv0[d].len() - 1] == iv0[d].last());
                    assert(iv0[d].contains(iv0[d].last()));
                    assert(rel_upto(f, c, j as int, iv0[d].last(), d));
                }
                if lastv != c {
                    proof {
                        assert forall|x: usize| #[trigger] iv0[d].contains(x) implies x < c by {
                            assert(rel_upto(f, c, j as int, x, d));
                            if x == c {
                                let ix = choose|ix: int|
                                    0 <= ix < iv0[d].len() && iv0[d][ix] == c;
                                if ix < iv0[d].len() - 1 {
                                    assert(iv0[d][ix] < iv0[d][iv0[d].len() - 1]);
                                }
                                assert(false);
                            }
                        }
                        assert(!iv0[d].contains(c));
                    }
                    v.push(c);
                    inv.insert(d, v);
                    proof {
                        assert(lists_view(inv@) =~= iv0.insert(d, iv0[d].push(c)));
                        lemma_invert_step(f, iv0, lists_view(inv@), c, j as int, d);
                    }
                } else {
                    inv.insert(d, v);
                    proof {
                        assert(iv0[d].contains(c));
                        assert(lists_view(inv@) =~= iv0);
                        lemma_invert_step(f, iv0, lists_view(inv@), c, j as int, d);
                    }
                }
            } else {
                let mut v: Vec<usize> = Vec::new();
                v.push(c);
                inv.insert(d, v);
                proof {
                    assert(!iv0.contains_key(d));
                    assert(v@ =~= seq![c]);
                    assert(lists_view(inv@) =~= iv0.insert(d, seq![c]));
                    lemma_invert_step(f, iv0, lists_view(inv@), c, j as int, d);
                }
            }
            j = j + 1;
        }
        proof {
            let iv = lists_view(inv@);
            let c1 = (c + 1) as usize;
            assert(f[c].take(dn as int) =~= f[c]);
            assert forall|x: usize, dd: usize| #[trigger] rel_upto(f, c, dn as int, x, dd) implies
                rel_upto(f, c1, 0, x, dd) by {
                if x == c {
                    assert(f[x].contains(dd));
                }
            }
            assert forall|x: usize, dd: usize| #[trigger] rel_upto(f, c1, 0, x, dd) implies
                rel_upto(f, c, dn as int, x, dd) by {
                if x == c1 {
                    assert(f[c1].take(0) =~= Seq::<usize>::empty());
                    assert(false);
                }
            }
            assert forall|dd: usize| #[trigger] iv.contains_key(dd) <==> exists|x: usize|
                #[trigger] rel_upto(f, c1, 0, x, dd) by {
                if iv.contains_key(dd) {
                    let x = choose|x: usize| #[trigger] rel_upto(f, c, dn as int, x, dd);
                    assert(rel_upto(f, c1, 0, x, dd));
                }
                if exists|x: usize| #[trigger] rel_upto(f, c1, 0, x, dd) {
                    let x = choose|x: usize| #[trigger] rel_upto(f, c1, 0, x, dd);
                    assert(rel_upto(f, c, dn as int, x, dd));
                }
            }
            assert forall|dd: usize, x: usize|
                iv.contains_key(dd) && #[trigger] iv[dd].contains(x) implies rel_upto(
                f,
                c1,
                0,
                x,
                dd,
            ) by {
                assert(rel_upto(f, c, dn as int, x, dd));
            }
            assert forall|dd: usize, x: usize| #[trigger] rel_upto(f, c1, 0, x, dd) implies
                iv.contains_key(dd) && iv[dd].contains(x) by {
                assert(rel_upto(f, c, dn as int, x, dd));
            }
            assert(inverse_partial(f, iv, c1, 0));
        }
        c = c + 1;
    }
    proof {
        let iv = lists_view(inv@);
        assert forall|dd: usize| #[trigger] iv.contains_key(dd) <==> exists|x: usize|
            f.contains_key(x) && #[trigger] f[x].contains(dd) by {
            if iv.contains_key(dd) {
                let x = choose|x: usize| #[trigger] rel_upto(f, num_threads, 0, x, dd);
                assert(f[x].contains(dd)) by {
                    if x == num_threads {
                        assert(f[num_threads].take(0) =~= Seq::<usize>::empty());
                    }
                }
            }
            if exists|x: usize| f.contains_key(x) && #[trigger] f[x].contains(dd) {
                let x = choose|x: usize| f.contains_key(x) && #[trigger] f[x].contains(dd);
                assert(x < num_threads);
                assert(rel_upto(f, num_threads, 0, x, dd));
            }
        }
        assert forall|dd: usize, x: usize|
            iv.contains_key(dd) && #[trigger] iv[dd].contains(x) implies f.contains_key(x) && f[
            x
        ].contains(dd) by {
            assert(rel_upto(f, num_threads, 0, x, dd));
            if x == num_threads {
                assert(f[num_threads].take(0) =~= Seq::<usize>::empty());
            }
        }
        assert forall|dd: usize, x: usize|
            f.contains_key(x) && #[trigger] f[x].contains(dd) && iv.contains_key(dd) implies iv[
            dd
        ].contains(x) by {
            assert(x < num_threads);
            assert(rel_upto(f, num_threads, 0, x, dd));
        }
    }
    inv
}

impl NvsmiAffinity {
    /// Probes every execution context in `[0, num_threads)` through the
    /// runner, parses each report, and returns the forward mapping together
    /// with its inverse. A "no devices" marker records an empty list for that
    /// context and the query continues with the next one. Any failure
    /// marker, unrecognized first line, or unparsable device list fails the
    /// whole query: no partial mapping is returned, not even for contexts
    /// already parsed.
    pub fn query<R: CommandRunner>(runner: &mut R, cmd_name: &str, num_threads: usize) -> (r:
        Result<NvsmiAffinity, QueryError>)
        ensures
            (match r {
                Ok(aff) => affinity_wf(aff@, num_threads as nat),
                Err(_) => true,
            }),
            num_threads == 0 ==> r is Ok,
    {
        let mut threads_to_devices: HashMap<usize, Vec<usize>> = HashMap::new();
        let mut thread_idx: usize = 0;
        while thread_idx < num_threads
            invariant
                thread_idx <= num_threads,
                forall|c: usize|
                    #[trigger] lists_view(threads_to_devices@).contains_key(c) <==> c < thread_idx,
            decreases num_threads - thread_idx,
        {
            let ghost fwd0 = threads_to_devices@;
            let lines = match runner.context_topology(cmd_name, thread_idx) {
                Ok(lines) => lines,
                Err(_) => {
                    return Err(QueryError::ExecutionFailure);
                },
            };
            let report = parse_context_lines(&lines);
            let device_idxs = match context_verdict(report) {
                Ok(device_idxs) => device_idxs,
                Err(e) => {
                    return Err(e);
                },
            };
            threads_to_devices.insert(thread_idx, device_idxs);
            proof {
                assert forall|c: usize|
                    #[trigger] lists_view(threads_to_devices@).contains_key(c) <==> c < thread_idx
                        + 1 by {
                    assert(lists_view(fwd0).contains_key(c) == fwd0.contains_key(c));
                    assert(lists_view(threads_to_devices@).contains_key(c)
                        == threads_to_devices@.contains_key(c));
                    assert(threads_to_devices@ == fwd0.insert(thread_idx, threads_to_devices@[
                        thread_idx
                    ]));
                }
            }
            thread_idx = thread_idx + 1;
        }
        let devices_to_threads = invert(&threads_to_devices, num_threads);
        Ok(NvsmiAffinity { threads_to_devices, devices_to_threads })
    }

    /// Queries the default tool for every CPU of this system.
    pub fn query_default<R: CommandRunner>(runner: &mut R) -> (r: Result<
        NvsmiAffinity,
        QueryError,
    >)
        ensures
            (match r {
                Ok(aff) => exists|n: nat| n >= 1 && affinity_wf(aff@, n),
                Err(_) => true,
            }),
    {
        let num_threads = crate::runner::cpu_count();
        let r = Self::query(runner, "nvidia-smi", num_threads);
        proof {
            if r is Ok {
                assert(num_threads as nat >= 1 && affinity_wf(r->Ok_0@, num_threads as nat));
            }
        }
        r
    }
}

} // verus!
