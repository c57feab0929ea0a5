use vstd::prelude::*;

use crate::series::{
    config_view, copy_bytes, bytes_eq, targets_view, ProbeTarget, ProbeTargetView, SeriesView,
    TrackedSeries,
};

verus! {

/// The decimal digits of a number, most significant first, as ASCII bytes.
pub open spec fn spec_decimal(n: nat) -> Seq<u8>
    decreases n,
{
    if n < 10 {
        seq![(48 + n) as u8]
    } else {
        spec_decimal(n / 10) + seq![(48 + n % 10) as u8]
    }
}

/// Appends the decimal digits of `n` to `out`.
pub fn push_decimal(n: u64, out: &mut Vec<u8>)
    ensures
        final(out)@ == old(out)@ + spec_decimal(n as nat),
    decreases n,
{
    if n < 10 {
        out.push((48 + n) as u8);
        proof {
            assert(out@ =~= old(out)@ + spec_decimal(n as nat));
        }
    } else {
        push_decimal(n / 10, out);
        out.push((48 + n % 10) as u8);
        proof {
            assert(out@ =~= old(out)@ + spec_decimal(n as nat));
        }
    }
}

/// The decimal digits of `n` as a byte string.
pub fn decimal_bytes(n: u64) -> (r: Vec<u8>)
    ensures
        r@ == spec_decimal(n as nat),
{
    let mut out: Vec<u8> = Vec::new();
    push_decimal(n, &mut out);
    proof {
        assert(out@ =~= spec_decimal(n as nat));
    }
    out
}

/// The placeholder token in a URL template: the bytes of "[CHAPTER]".
pub open spec fn placeholder() -> Seq<u8> {
    seq![91u8, 67u8, 72u8, 65u8, 80u8, 84u8, 69u8, 82u8, 93u8]
}

/// The placeholder token as an executable byte string.
pub fn placeholder_bytes() -> (r: Vec<u8>)
    ensures
        r@ == placeholder(),
{
    let mut v: Vec<u8> = Vec::new();
    v.push(91);
    v.push(67);
    v.push(72);
    v.push(65);
    v.push(80);
    v.push(84);
    v.push(69);
    v.push(82);
    v.push(93);
    proof {
        assert(v@ =~= placeholder());
    }
    v
}

/// `t` with every occurrence of `pat` replaced by `rep`, scanning left to
/// right; occurrences never overlap, and an empty pattern replaces nothing.
pub open spec fn spec_replace(t: Seq<u8>, pat: Seq<u8>, rep: Seq<u8>) -> Seq<u8>
    decreases t.len(),
{
    if pat.len() == 0 || t.len() < pat.len() {
        t
    } else if t.take(pat.len() as int) == pat {
        rep + spec_replace(t.skip(pat.len() as int), pat, rep)
    } else {
        seq![t[0]] + spec_replace(t.drop_first(), pat, rep)
    }
}

/// Appends all of `src` to `out`.
pub fn append_bytes(out: &mut Vec<u8>, src: &Vec<u8>)
    ensures
        final(out)@ == old(out)@ + src@,
{
    let mut j: usize = 0;
    while j < src.len()
        invariant
            j <= src.len(),
            out@ =~= old(out)@ + src@.take(j as int),
        decreases src.len() - j,
    {
        out.push(src[j]);
        j = j + 1;
    }
    proof {
        assert(out@ =~= old(out)@ + src@);
    }
}

/// Whether `pat` occurs in `t` starting at position `i`.
pub(crate) fn match_at(t: &Vec<u8>, i: usize, pat: &Vec<u8>) -> (r: bool)
    requires
        i <= t.len(),
        pat.len() <= t.len() - i,
    ensures
        r == (t@.skip(i as int).take(pat@.len() as int) == pat@),
{
    let mut j: usize = 0;
    while j < pat.len()
        invariant
            j <= pat.len(),
            i + pat.len() <= t.len(),
            forall|k: int| 0 <= k < j ==> t@[i + k] == pat@[k],
        decreases pat.len() - j,
    {
        if t[i + j] != pat[j] {
            proof {
                assert(t@.skip(i as int).take(pat@.len() as int)[j as int] == t@[i + j]);
            }
            return false;
        }
        j = j + 1;
    }
    proof {
        assert(t@.skip(i as int).take(pat@.len() as int) =~= pat@);
    }
    true
}

/// `t` with every occurrence of `pat` replaced by `rep`.
pub fn replace_all(t: &Vec<u8>, pat: &Vec<u8>, rep: &Vec<u8>) -> (r: Vec<u8>)
    ensures
        r@ == spec_replace(t@, pat@, rep@),
{
    if pat.len() == 0 {
        return copy_bytes(t);
    }
    let mut out: Vec<u8> = Vec::new();
    let mut i: usize = 0;
    proof {
        assert(t@.skip(0) =~= t@);
        assert(out@ + spec_replace(t@, pat@, rep@) =~= spec_replace(t@, pat@, rep@));
    }
    while i < t.len()
        invariant
            i <= t.len(),
            pat@.len() >= 1,
            spec_replace(t@, pat@, rep@) == out@ + spec_replace(
                t@.skip(i as int),
                pat@,
                rep@,
            ),
        decreases t.len() - i,
    {
        let ghost prev = out@;
        let ghost rem = t@.skip(i as int);
        if pat.len() <= t.len() - i && match_at(t, i, pat) {
            append_bytes(&mut out, rep);
            proof {
                assert(rem.take(pat@.len() as int) == pat@) by {
                    assert(rem.take(pat@.len() as int) =~= t@.skip(i as int).take(
                        pat@.len() as int,
                    ));
                }
                assert(rem.skip(pat@.len() as int) =~= t@.skip(i + pat@.len()));
                assert(spec_replace(rem, pat@, rep@) == rep@ + spec_replace(
                    t@.skip(i + pat@.len()),
                    pat@,
                    rep@,
                ));
                assert(prev + (rep@ + spec_replace(t@.skip(i + pat@.len()), pat@, rep@)) =~= (prev
                    + rep@) + spec_replace(t@.skip(i + pat@.len()), pat@, rep@));
            }
            i = i + pat.len();
        } else {
            out.push(t[i]);
            proof {
                assert(rem[0] == t@[i as int]);
                assert(rem.drop_first() =~= t@.skip(i + 1));
                if rem.len() < pat@.len() {
                    assert(spec_replace(rem, pat@, rep@) == rem);
                    assert(spec_replace(t@.skip(i + 1), pat@, rep@) == t@.skip(i + 1));
                    assert(prev + rem =~= (prev + seq![t@[i as int]]) + t@.skip(i + 1));
                } else {
                    assert(rem.take(pat@.len() as int) != pat@);
                    assert(spec_replace(rem, pat@, rep@) == seq![rem[0]] + spec_replace(
                        rem.drop_first(),
                        pat@,
                        rep@,
                    ));
                    assert(prev + (seq![t@[i as int]] + spec_replace(t@.skip(i + 1), pat@, rep@))
                        =~= (prev + seq![t@[i as int]]) + spec_replace(t@.skip(i + 1), pat@, rep@));
                }
            }
            i = i + 1;
        }
    }
    proof {
        assert(t@.skip(t@.len() as int).len() == 0);
        assert(spec_replace(t@.skip(t@.len() as int), pat@, rep@) == t@.skip(t@.len() as int));
        assert(out@ + t@.skip(t@.len() as int) =~= out@);
    }
    out
}

/// The candidate URL for the next chapter of a series: its URL template
/// with every placeholder occurrence replaced by the decimal digits of
/// `current_chapter + 1`.
pub open spec fn spec_candidate_url(s: SeriesView) -> Seq<u8> {
    spec_replace(s.url, placeholder(), spec_decimal((s.current_chapter + 1) as nat))
}

/// Computes the candidate URL for the next chapter of `s`.
pub fn next_chapter_url(s: &TrackedSeries) -> (r: Vec<u8>)
    ensures
        r@ == spec_candidate_url(s@),
{
    let next: u64 = s.current_chapter as u64 + 1;
    let rep = decimal_bytes(next);
    let pat = placeholder_bytes();
    replace_all(&s.url, &pat, &rep)
}

/// Whether a series is selected by a short-name filter: an empty filter
/// selects everything, otherwise only an exact short-name match.
pub open spec fn selected(s: SeriesView, filter: Seq<u8>) -> bool {
    filter.len() == 0 || s.short_name == filter
}

/// The probe target a series gives rise to.
pub open spec fn target_of(s: SeriesView) -> ProbeTargetView {
    ProbeTargetView { name: s.name, url: spec_candidate_url(s) }
}

/// The probe plan for a config under a filter: the selected series in
/// config order, each with its next-chapter candidate URL.
pub open spec fn spec_plan(cfg: Seq<SeriesView>, filter: Seq<u8>) -> Seq<ProbeTargetView>
    decreases cfg.len(),
{
    if cfg.len() == 0 {
        Seq::empty()
    } else {
        let init = spec_plan(cfg.drop_last(), filter);
        if selected(cfg.last(), filter) {
            init.push(target_of(cfg.last()))
        } else {
            init
        }
    }
}

/// Builds the probe plan for a config: one target per selected series, in
/// config order. An empty filter selects every series.
pub fn plan_probes(cfg: &Vec<TrackedSeries>, filter: &Vec<u8>) -> (r: Vec<ProbeTarget>)
    ensures
        targets_view(r@) == spec_plan(config_view(cfg@), filter@),
{
    let mut out: Vec<ProbeTarget> = Vec::new();
    let mut i: usize = 0;
    while i < cfg.len()
        invariant
            i <= cfg.len(),
            targets_view(out@) =~= spec_plan(config_view(cfg@).take(i as int), filter@),
        decreases cfg.len() - i,
    {
        let ghost prev = out@;
        let s = &cfg[i];
        let sel = if filter.len() == 0 {
            true
        } else {
            bytes_eq(&s.short_name, filter)
        };
        if sel {
            let url = next_chapter_url(s);
            let t = ProbeTarget { name: copy_bytes(&s.name), url };
            out.push(t);
        }
        proof {
            let cv = config_view(cfg@);
            assert(cv.take(i + 1).drop_last() =~= cv.take(i as int));
            assert(cv.take(i + 1).last() == cfg@[i as int]@);
            assert(sel == selected(cfg@[i as int]@, filter@));
            if sel {
                assert(targets_view(out@) =~= targets_view(prev).push(
                    target_of(cfg@[i as int]@),
                ));
            }
        }
        i = i + 1;
    }
    proof {
        assert(config_view(cfg@).take(cfg@.len() as int) =~= config_view(cfg@));
        assert(targets_view(out@) == spec_plan(config_view(cfg@), filter@));
    }
    out
}

/// The targets whose probes came back positive, in plan order.
pub open spec fn spec_matches(ts: Seq<ProbeTargetView>, rs: Seq<bool>) -> Seq<ProbeTargetView>
    recommends
        ts.len() == rs.len(),
    decreases ts.len(),
{
    if ts.len() == 0 || rs.len() == 0 {
        Seq::empty()
    } else {
        let init = spec_matches(ts.drop_last(), rs.drop_last());
        if rs.last() {
            init.push(ts.last())
        } else {
            init
        }
    }
}

/// Keeps the targets whose probe result is true, in order. `results[i]` is
/// the outcome of probing `targets[i]`.
pub fn collect_matches(targets: &Vec<ProbeTarget>, results: &Vec<bool>) -> (r: Vec<ProbeTarget>)
    requires
        targets@.len() == results@.len(),
    ensures
        targets_view(r@) == spec_matches(targets_view(targets@), results@),
{
    let mut out: Vec<ProbeTarget> = Vec::new();
    let mut i: usize = 0;
    while i < targets.len()
        invariant
            i <= targets.len(),
            targets@.len() == results@.len(),
            targets_view(out@) =~= spec_matches(
                targets_view(targets@).take(i as int),
                results@.take(i as int),
            ),
        decreases targets.len() - i,
    {
        let ghost prev = out@;
        if results[i] {
            let t = ProbeTarget {
                name: copy_bytes(&targets[i].name),
                url: copy_bytes(&targets[i].url),
            };
            out.push(t);
        }
        proof {
            let tv = targets_view(targets@);
            assert(tv.take(i + 1).drop_last() =~= tv.take(i as int));
            assert(results@.take(i + 1).drop_last() =~= results@.take(i as int));
            assert(tv.take(i + 1).last() == targets@[i as int]@);
            assert(results@.take(i + 1).last() == results@[i as int]);
            if results@[i as int] {
                assert(targets_view(out@) =~= targets_view(prev).push(targets@[i as int]@));
            }
        }
        i = i + 1;
    }
    proof {
        assert(targets_view(targets@).take(targets@.len() as int) =~= targets_view(targets@));
        assert(results@.take(results@.len() as int) =~= results@);
    }
    out
}

/// The bytes of "No new chapters found\n".
pub open spec fn no_new_message() -> Seq<u8> {
    seq![
        78u8, 111u8, 32u8, 110u8, 101u8, 119u8, 32u8, 99u8, 104u8, 97u8, 112u8, 116u8, 101u8,
        114u8, 115u8, 32u8, 102u8, 111u8, 117u8, 110u8, 100u8, 10u8,
    ]
}

/// The bytes of "New chapters found!\n".
pub open spec fn header_message() -> Seq<u8> {
    seq![
        78u8, 101u8, 119u8, 32u8, 99u8, 104u8, 97u8, 112u8, 116u8, 101u8, 114u8, 115u8, 32u8,
        102u8, 111u8, 117u8, 110u8, 100u8, 33u8, 10u8,
    ]
}

/// One report line: the series name, ": ", the new URL, and a newline.
pub open spec fn report_line(t: ProbeTargetView) -> Seq<u8> {
    t.name + seq![58u8, 32u8] + t.url + seq![10u8]
}

/// The report lines for a list of matches, in order.
pub open spec fn report_lines(ts: Seq<ProbeTargetView>) -> Seq<u8>
    decreases ts.len(),
{
    if ts.len() == 0 {
        Seq::empty()
    } else {
        report_lines(ts.drop_last()) + report_line(ts.last())
    }
}

/// The whole report: a no-match message when nothing was found, otherwise
/// a header line followed by one line per match.
pub open spec fn spec_report(ts: Seq<ProbeTargetView>) -> Seq<u8> {
    if ts.len() == 0 {
        no_new_message()
    } else {
        header_message() + report_lines(ts)
    }
}

/// Renders the run's report for the collected matches.
pub fn render_report(ms: &Vec<ProbeTarget>) -> (r: Vec<u8>)
    ensures
        r@ == spec_report(targets_view(ms@)),
{
    let mut out: Vec<u8> = Vec::new();
    if ms.len() == 0 {
        out.push(78);
        out.push(111);
        out.push(32);
        out.push(110);
        out.push(101);
        out.push(119);
        out.push(32);
        out.push(99);
        out.push(104);
        out.push(97);
        out.push(112);
        out.push(116);
        out.push(101);
        out.push(114);
        out.push(115);
        out.push(32);
        out.push(102);
        out.push(111);
        out.push(117);
        out.push(110);
        out.push(100);
        out.push(10);
        proof {
            assert(out@ =~= no_new_message());
            assert(targets_view(ms@).len() == 0);
        }
        return out;
    }
    out.push(78);
    out.push(101);
    out.push(119);
    out.push(32);
    out.push(99);
    out.push(104);
    out.push(97);
    out.push(112);
    out.push(116);
    out.push(101);
    out.push(114);
    out.push(115);
    out.push(32);
    out.push(102);
    out.push(111);
    out.push(117);
    out.push(110);
    out.push(100);
    out.push(33);
    out.push(10);
    proof {
        assert(out@ =~= header_message());
    }
    let mut i: usize = 0;
    while i < ms.len()
        invariant
            i <= ms.len(),
            out@ =~= header_message() + report_lines(targets_view(ms@).take(i as int)),
        decreases ms.len() - i,
    {
        let ghost prev = out@;
        append_bytes(&mut out, &ms[i].name);
        out.push(58);
        out.push(32);
        append_bytes(&mut out, &ms[i].url);
        out.push(10);
        proof {
            let tv = targets_view(ms@);
            assert(tv.take(i + 1).drop_last() =~= tv.take(i as int));
            assert(tv.take(i + 1).last() == ms@[i as int]@);
            assert(out@ =~= prev + report_line(ms@[i as int]@));
            assert(out@ =~= header_message() + report_lines(tv.take(i + 1)));
        }
        i = i + 1;
    }
    proof {
        assert(targets_view(ms@).take(ms@.len() as int) =~= targets_view(ms@));
        assert(targets_view(ms@).len() > 0);
    }
    out
}

/// Law: when no probe came back positive, the match set is empty.
pub proof fn lemma_no_positive_probe(ts: Seq<ProbeTargetView>, rs: Seq<bool>)
    requires
        ts.len() == rs.len(),
        forall|i: int| 0 <= i < rs.len() ==> !rs[i],
    ensures
        spec_matches(ts, rs) == Seq::<ProbeTargetView>::empty(),
    decreases ts.len(),
{
    if ts.len() > 0 {
        assert(forall|i: int| 0 <= i < rs.drop_last().len() ==> rs.drop_last()[i] == rs[i]);
        lemma_no_positive_probe(ts.drop_last(), rs.drop_last());
    }
}

/// Law: when exactly the probe of target `k` came back positive, the match
/// set holds exactly that one target.
pub proof fn lemma_single_positive_probe(ts: Seq<ProbeTargetView>, rs: Seq<bool>, k: int)
    requires
        ts.len() == rs.len(),
        0 <= k < ts.len(),
        forall|i: int| 0 <= i < rs.len() ==> (rs[i] <==> i == k),
    ensures
        spec_matches(ts, rs) == seq![ts[k]],
    decreases ts.len(),
{
    assert(forall|i: int| 0 <= i < rs.drop_last().len() ==> rs.drop_last()[i] == rs[i]);
    if k == ts.len() - 1 {
        lemma_no_positive_probe(ts.drop_last(), rs.drop_last());
        assert(spec_matches(ts, rs) =~= seq![ts[k]]);
    } else {
        lemma_single_positive_probe(ts.drop_last(), rs.drop_last(), k);
        assert(!rs.last());
    }
}

/// Law: planning under a short-name filter plans exactly the series the
/// filter selects, in config order, each mapped to its probe target.
pub proof fn lemma_plan_is_filter(cfg: Seq<SeriesView>, filter: Seq<u8>)
    ensures
        spec_plan(cfg, filter) == cfg.filter(|s: SeriesView| selected(s, filter)).map_values(
            |s: SeriesView| target_of(s),
        ),
    decreases cfg.len(),
{
    reveal(Seq::filter);
    let pred = |s: SeriesView| selected(s, filter);
    let f = |s: SeriesView| target_of(s);
    if cfg.len() == 0 {
        assert(cfg.filter(pred).map_values(f) =~= Seq::<ProbeTargetView>::empty());
    } else {
        lemma_plan_is_filter(cfg.drop_last(), filter);
        if selected(cfg.last(), filter) {
            assert(cfg.filter(pred) == cfg.drop_last().filter(pred).push(cfg.last()));
            assert(cfg.filter(pred).map_values(f) =~= cfg.drop_last().filter(pred).map_values(
                f,
            ).push(f(cfg.last())));
        } else {
            assert(cfg.filter(pred) == cfg.drop_last().filter(pred));
        }
    }
}

} // verus!

