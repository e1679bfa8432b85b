//! Matching of the three planes' hit streams into complete tracks.

use vstd::prelude::*;
use crate::event::{Event, Hit};
use crate::eventset::three_planes;

verus! {

/// The hits of one event, one per plane in plane order.
pub struct Triple {
    /// The hit on the first plane.
    pub first: Hit,
    /// The hit on the second plane.
    pub second: Hit,
    /// The hit on the third plane.
    pub third: Hit,
}

/// The smallest of three numbers.
pub open spec fn least(a: int, b: int, c: int) -> int {
    if a <= b && a <= c {
        a
    } else if b <= c {
        b
    } else {
        c
    }
}

/// One if the hit carries the event number `m`, else zero: how far a stream
/// advances past a hit when `m` is the smallest number in view.
pub open spec fn advance(h: Hit, m: int) -> int {
    if h.event_num == m {
        1
    } else {
        0
    }
}

/// The tracks that the merge finds from the positions `i`, `j` and `k` of
/// the three streams on. It looks at one hit of each stream: where all three
/// carry the same event number they form a track and every stream advances;
/// otherwise the streams that show the smallest number advance. It ends when
/// a stream is exhausted.
pub open spec fn merge(a: Seq<Hit>, b: Seq<Hit>, c: Seq<Hit>, i: int, j: int, k: int) -> Seq<
    Triple,
>
    decreases (a.len() - i) + (b.len() - j) + (c.len() - k),
{
    if i < 0 || j < 0 || k < 0 || i >= a.len() || j >= b.len() || k >= c.len() {
        Seq::empty()
    } else if a[i].event_num == b[j].event_num && b[j].event_num == c[k].event_num {
        seq![Triple { first: a[i], second: b[j], third: c[k] }] + merge(
            a,
            b,
            c,
            i + 1,
            j + 1,
            k + 1,
        )
    } else {
        let m = least(a[i].event_num as int, b[j].event_num as int, c[k].event_num as int);
        merge(a, b, c, i + advance(a[i], m), j + advance(b[j], m), k + advance(c[k], m))
    }
}

/// The tracks of three whole streams.
pub open spec fn matched(a: Seq<Hit>, b: Seq<Hit>, c: Seq<Hit>) -> Seq<Triple> {
    merge(a, b, c, 0, 0, 0)
}

/// The horizontal samples of a track.
pub open spec fn xs_of(t: Triple) -> Seq<i64> {
    seq![t.first.x, t.second.x, t.third.x]
}

/// The vertical samples of a track.
pub open spec fn ys_of(t: Triple) -> Seq<i64> {
    seq![t.first.y, t.second.y, t.third.y]
}

/// The four columns hold the tracks `tracks`, row by row: the event number
/// and the metadata are those of the first plane's hit.
pub open spec fn columns_hold(
    nums: Seq<u32>,
    x: Seq<Vec<i64>>,
    y: Seq<Vec<i64>>,
    events: Seq<Event>,
    tracks: Seq<Triple>,
) -> bool {
    &&& nums.len() == tracks.len()
    &&& x.len() == tracks.len()
    &&& y.len() == tracks.len()
    &&& events.len() == tracks.len()
    &&& forall|n: int| 0 <= n < tracks.len() ==> #[trigger] nums[n] == tracks[n].first.event_num
    &&& forall|n: int| 0 <= n < tracks.len() ==> (#[trigger] x[n])@ == xs_of(tracks[n])
    &&& forall|n: int| 0 <= n < tracks.len() ==> (#[trigger] y[n])@ == ys_of(tracks[n])
    &&& forall|n: int| 0 <= n < tracks.len() ==> #[trigger] events[n] == tracks[n].first.event
}

/// Matches the hit streams of the three planes into complete tracks. The
/// streams are merged on their event numbers: an event that is seen on all
/// three planes becomes a row of the result, any other hit is passed over.
/// The result holds the event numbers, the horizontal and the vertical
/// samples (one row of three per event) and the metadata.
pub fn parse_data(first: &Vec<Hit>, second: &Vec<Hit>, third: &Vec<Hit>) -> (res: (
    Vec<u32>,
    Vec<Vec<i64>>,
    Vec<Vec<i64>>,
    Vec<Event>,
))
    ensures
        columns_hold(res.0@, res.1@, res.2@, res.3@, matched(first@, second@, third@)),
        three_planes(res.1@),
        three_planes(res.2@),
{
    let mut nums: Vec<u32> = Vec::new();
    let mut x: Vec<Vec<i64>> = Vec::new();
    let mut y: Vec<Vec<i64>> = Vec::new();
    let mut events: Vec<Event> = Vec::new();
    let mut i: usize = 0;
    let mut j: usize = 0;
    let mut k: usize = 0;
    let ghost mut found: Seq<Triple> = Seq::empty();
    while i < first.len() && j < second.len() && k < third.len()
        invariant
            0 <= i <= first.len(),
            0 <= j <= second.len(),
            0 <= k <= third.len(),
            matched(first@, second@, third@) == found + merge(
                first@,
                second@,
                third@,
                i as int,
                j as int,
                k as int,
            ),
            columns_hold(nums@, x@, y@, events@, found),
            three_planes(x@),
            three_planes(y@),
        decreases (first.len() - i) + (second.len() - j) + (third.len() - k),
    {
        let a = first[i];
        let b = second[j];
        let c = third[k];
        if a.event_num == b.event_num && b.event_num == c.event_num {
            let mut xs: Vec<i64> = Vec::new();
            xs.push(a.x);
            xs.push(b.x);
            xs.push(c.x);
            let mut ys: Vec<i64> = Vec::new();
            ys.push(a.y);
            ys.push(b.y);
            ys.push(c.y);
            proof {
                let t = Triple { first: a, second: b, third: c };
                let rest = merge(first@, second@, third@, i + 1, j + 1, k + 1);
                assert(found + (seq![t] + rest) =~= found.push(t) + rest);
                assert(xs@ =~= xs_of(t));
                assert(ys@ =~= ys_of(t));
                found = found.push(t);
            }
            nums.push(a.event_num);
            x.push(xs);
            y.push(ys);
            events.push(a.event);
            i = i + 1;
            j = j + 1;
            k = k + 1;
        } else {
            let m: u32 = if a.event_num <= b.event_num && a.event_num <= c.event_num {
                a.event_num
            } else if b.event_num <= c.event_num {
                b.event_num
            } else {
                c.event_num
            };
            if a.event_num == m {
                i = i + 1;
            }
            if b.event_num == m {
                j = j + 1;
            }
            if c.event_num == m {
                k = k + 1;
            }
        }
    }
    assert(merge(first@, second@, third@, i as int, j as int, k as int) =~= Seq::<
        Triple,
    >::empty());
    assert(found + Seq::<Triple>::empty() =~= found);
    (nums, x, y, events)
}

/// The event numbers of a stream rise strictly.
pub open spec fn ascending(s: Seq<Hit>) -> bool {
    forall|i: int, j: int| 0 <= i < j < s.len() ==> s[i].event_num < s[j].event_num
}

/// The stream holds the hit `h` at position `at` or later.
pub open spec fn holds_from(s: Seq<Hit>, at: int, h: Hit) -> bool {
    exists|i: int| at <= i < s.len() && s[i] == h
}

/// The tracks hold one made of the hits `h1`, `h2` and `h3`.
pub open spec fn has_track(tracks: Seq<Triple>, h1: Hit, h2: Hit, h3: Hit) -> bool {
    exists|n: int|
        0 <= n < tracks.len() && tracks[n] == (Triple { first: h1, second: h2, third: h3 })
}

/// The event numbers of the tracks rise strictly.
pub open spec fn tracks_ascending(tracks: Seq<Triple>) -> bool {
    forall|m: int, n: int|
        0 <= m < n < tracks.len() ==> tracks[m].first.event_num < tracks[n].first.event_num
}

/// Every track that the merge finds is made of one hit of each stream, all
/// three with the same event number, each taken from where the merge stood
/// or later.
pub proof fn lemma_merge_sound(
    a: Seq<Hit>,
    b: Seq<Hit>,
    c: Seq<Hit>,
    i: int,
    j: int,
    k: int,
    n: int,
)
    requires
        0 <= i,
        0 <= j,
        0 <= k,
        0 <= n < merge(a, b, c, i, j, k).len(),
    ensures
        ({
            let t = merge(a, b, c, i, j, k)[n];
            &&& t.first.event_num == t.second.event_num
            &&& t.second.event_num == t.third.event_num
            &&& holds_from(a, i, t.first)
            &&& holds_from(b, j, t.second)
            &&& holds_from(c, k, t.third)
        }),
    decreases (a.len() - i) + (b.len() - j) + (c.len() - k),
{
    if i >= a.len() || j >= b.len() || k >= c.len() {
    } else if a[i].event_num == b[j].event_num && b[j].event_num == c[k].event_num {
        if n == 0 {
            assert(a[i] == a[i] && i <= i < a.len());
            assert(b[j] == b[j] && j <= j < b.len());
            assert(c[k] == c[k] && k <= k < c.len());
        } else {
            let rest = merge(a, b, c, i + 1, j + 1, k + 1);
            assert(merge(a, b, c, i, j, k)[n] == rest[n - 1]);
            lemma_merge_sound(a, b, c, i + 1, j + 1, k + 1, n - 1);
            lemma_holds_earlier(a, i, i + 1, rest[n - 1].first);
            lemma_holds_earlier(b, j, j + 1, rest[n - 1].second);
            lemma_holds_earlier(c, k, k + 1, rest[n - 1].third);
        }
    } else {
        let m = least(a[i].event_num as int, b[j].event_num as int, c[k].event_num as int);
        let (i2, j2, k2) = (i + advance(a[i], m), j + advance(b[j], m), k + advance(c[k], m));
        lemma_merge_sound(a, b, c, i2, j2, k2, n);
        let t = merge(a, b, c, i, j, k)[n];
        lemma_holds_earlier(a, i, i2, t.first);
        lemma_holds_earlier(b, j, j2, t.second);
        lemma_holds_earlier(c, k, k2, t.third);
    }
}

/// What a stream holds from a later position on, it holds from an earlier.
proof fn lemma_holds_earlier(s: Seq<Hit>, at: int, later: int, h: Hit)
    requires
        at <= later,
        holds_from(s, later, h),
    ensures
        holds_from(s, at, h),
{
    let i = choose|i: int| later <= i < s.len() && s[i] == h;
    assert(at <= i < s.len() && s[i] == h);
}

/// Where the streams are ascending, an event that all three hold, from
/// where the merge stands or later, is among the tracks that the merge
/// finds.
pub proof fn lemma_merge_complete(
    a: Seq<Hit>,
    b: Seq<Hit>,
    c: Seq<Hit>,
    i: int,
    j: int,
    k: int,
    ia: int,
    jb: int,
    kc: int,
)
    requires
        ascending(a),
        ascending(b),
        ascending(c),
        0 <= i <= ia < a.len(),
        0 <= j <= jb < b.len(),
        0 <= k <= kc < c.len(),
        a[ia].event_num == b[jb].event_num,
        b[jb].event_num == c[kc].event_num,
    ensures
        has_track(merge(a, b, c, i, j, k), a[ia], b[jb], c[kc]),
    decreases (a.len() - i) + (b.len() - j) + (c.len() - k),
{
    let num = a[ia].event_num;
    let found = merge(a, b, c, i, j, k);
    let wanted = Triple { first: a[ia], second: b[jb], third: c[kc] };
    if a[i].event_num == b[j].event_num && b[j].event_num == c[k].event_num {
        let rest = merge(a, b, c, i + 1, j + 1, k + 1);
        if a[i].event_num == num {
            assert(ia == i && jb == j && kc == k);
            assert(found[0] == wanted);
        } else {
            lemma_merge_complete(a, b, c, i + 1, j + 1, k + 1, ia, jb, kc);
            let n = choose|n: int| 0 <= n < rest.len() && rest[n] == wanted;
            assert(found[n + 1] == wanted);
        }
    } else {
        let m = least(a[i].event_num as int, b[j].event_num as int, c[k].event_num as int);
        assert(a[i].event_num <= num && b[j].event_num <= num && c[k].event_num <= num);
        assert(m < num);
        lemma_merge_complete(
            a,
            b,
            c,
            i + advance(a[i], m),
            j + advance(b[j], m),
            k + advance(c[k], m),
            ia,
            jb,
            kc,
        );
    }
}

/// Where the streams are ascending, so are the tracks that the merge finds,
/// and none of them has a smaller event number than the hit at which the
/// merge stands.
pub proof fn lemma_merge_ascending(a: Seq<Hit>, b: Seq<Hit>, c: Seq<Hit>, i: int, j: int, k: int)
    requires
        ascending(a),
        ascending(b),
        ascending(c),
        0 <= i,
        0 <= j,
        0 <= k,
    ensures
        tracks_ascending(merge(a, b, c, i, j, k)),
        forall|n: int|
            0 <= n < merge(a, b, c, i, j, k).len() ==> i < a.len() && a[i].event_num <= (
            #[trigger] merge(a, b, c, i, j, k)[n]).first.event_num,
    decreases (a.len() - i) + (b.len() - j) + (c.len() - k),
{
    let found = merge(a, b, c, i, j, k);
    if i >= a.len() || j >= b.len() || k >= c.len() {
    } else if a[i].event_num == b[j].event_num && b[j].event_num == c[k].event_num {
        let rest = merge(a, b, c, i + 1, j + 1, k + 1);
        lemma_merge_ascending(a, b, c, i + 1, j + 1, k + 1);
        assert forall|n: int| 0 <= n < found.len() implies a[i].event_num <= (
        #[trigger] found[n]).first.event_num by {
            if n > 0 {
                assert(found[n] == rest[n - 1]);
            }
        }
        assert forall|m: int, n: int| 0 <= m < n < found.len() implies found[m].first.event_num
            < found[n].first.event_num by {
            assert(found[n] == rest[n - 1]);
            if m > 0 {
                assert(found[m] == rest[m - 1]);
            }
        }
    } else {
        let m = least(a[i].event_num as int, b[j].event_num as int, c[k].event_num as int);
        lemma_merge_ascending(
            a,
            b,
            c,
            i + advance(a[i], m),
            j + advance(b[j], m),
            k + advance(c[k], m),
        );
    }
}

/// Matching ascending streams keeps exactly the events that all three
/// planes saw: every track is made of three hits with one event number, one
/// from each stream; every such three hits make a track; and the tracks come
/// out in ascending order.
pub proof fn lemma_matched_is_intersection(a: Seq<Hit>, b: Seq<Hit>, c: Seq<Hit>)
    requires
        ascending(a),
        ascending(b),
        ascending(c),
    ensures
        tracks_ascending(matched(a, b, c)),
        forall|n: int|
            0 <= n < matched(a, b, c).len() ==> {
                let t = #[trigger] matched(a, b, c)[n];
                &&& t.first.event_num == t.second.event_num
                &&& t.second.event_num == t.third.event_num
                &&& holds_from(a, 0, t.first)
                &&& holds_from(b, 0, t.second)
                &&& holds_from(c, 0, t.third)
            },
        forall|ia: int, jb: int, kc: int|
            0 <= ia < a.len() && 0 <= jb < b.len() && 0 <= kc < c.len() && a[ia].event_num
                == b[jb].event_num && b[jb].event_num == c[kc].event_num ==> has_track(
                matched(a, b, c),
                #[trigger] a[ia],
                #[trigger] b[jb],
                #[trigger] c[kc],
            ),
{
    lemma_merge_ascending(a, b, c, 0, 0, 0);
    assert forall|n: int| 0 <= n < matched(a, b, c).len() implies {
        let t = #[trigger] matched(a, b, c)[n];
        &&& t.first.event_num == t.second.event_num
        &&& t.second.event_num == t.third.event_num
        &&& holds_from(a, 0, t.first)
        &&& holds_from(b, 0, t.second)
        &&& holds_from(c, 0, t.third)
    } by {
        lemma_merge_sound(a, b, c, 0, 0, 0, n);
    }
    assert forall|ia: int, jb: int, kc: int|
        0 <= ia < a.len() && 0 <= jb < b.len() && 0 <= kc < c.len() && a[ia].event_num
            == b[jb].event_num && b[jb].event_num == c[kc].event_num implies has_track(
        matched(a, b, c),
        #[trigger] a[ia],
        #[trigger] b[jb],
        #[trigger] c[kc],
    ) by {
        lemma_merge_complete(a, b, c, 0, 0, 0, ia, jb, kc);
    }
}

} // verus!
