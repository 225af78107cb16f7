use vstd::prelude::*;
use bloomfilter::Bloom;
use crate::estimators::elapsed;

verus! {

#[verifier::external_type_specification]
#[verifier::external_body]
#[verifier::reject_recursive_types(T)]
pub struct ExBloom<T: ?Sized>(Bloom<T>);

/// A Bloom filter over byte strings.
pub type ByteBloom = Bloom<[u8]>;

/// The byte strings recorded in a filter since it was made or last cleared.
pub uninterp spec fn bloom_items(b: ByteBloom) -> Set<Seq<u8>>;

/// Relies on `Bloom::new`: a filter of `bitmap_bytes` bytes sized for
/// `items` entries starts with nothing recorded; it panics on zero sizes.
#[verifier::external_body]
fn bloom_new(bitmap_bytes: usize, items: usize) -> (r: ByteBloom)
    requires
        bitmap_bytes > 0,
        items > 0,
    ensures
        bloom_items(r) == Set::<Seq<u8>>::empty(),
{
    Bloom::new(bitmap_bytes, items)
}

/// Relies on `Bloom::check`: there are no false negatives.
#[verifier::external_body]
fn bloom_check(b: &ByteBloom, v: &[u8]) -> (r: bool)
    ensures
        bloom_items(*b).contains(v@) ==> r,
{
    b.check(v)
}

/// Relies on `Bloom::check_and_set`: records `v` and reports whether it may
/// have been present before, with no false negatives.
#[verifier::external_body]
fn bloom_check_and_set(b: &mut ByteBloom, v: &[u8]) -> (r: bool)
    ensures
        bloom_items(*final(b)) == bloom_items(*old(b)).insert(v@),
        bloom_items(*old(b)).contains(v@) ==> r,
{
    b.check_and_set(v)
}

/// Relies on `Bloom::clear`: removes every recorded item.
#[verifier::external_body]
fn bloom_clear(b: &mut ByteBloom)
    ensures
        bloom_items(*final(b)) == Set::<Seq<u8>>::empty(),
{
    b.clear()
}

/// Bitmap bytes for 100 000 items at a 1% false-positive rate.
pub const FILTER_BYTES: usize = 119814;

/// Items each filter is sized for.
pub const FILTER_ITEMS: usize = 100000;

/// Length in ms of one filter period: the current filter is retired at the
/// end of its period, and forgotten at the end of the next one.
pub const PERIOD_MS: u64 = 600000;

/// Replay suppressor over raw datagram bytes: a current and a previous Bloom
/// filter, rotated on a fixed schedule of ten-minute periods.
/// Times are monotonic clock readings in milliseconds.
pub struct RecentFilter {
    curr_bloom: ByteBloom,
    last_bloom: ByteBloom,
    curr_time: u64,
}

/// What a filter remembers: the items of the current and previous filters,
/// and when the current one started.
pub struct FilterView {
    pub curr: Set<Seq<u8>>,
    pub last: Set<Seq<u8>>,
    pub curr_time: u64,
}

/// The filters as they stand at `now`, before anything is recorded: whole
/// periods since the current one started are counted; after one the current
/// filter becomes the previous one, after two or more both are empty. The
/// current period then starts at the last period boundary before `now`.
pub open spec fn aged(o: FilterView, now: u64) -> FilterView {
    let e = elapsed(now, o.curr_time);
    let p = PERIOD_MS as int;
    let start = (now - e % p) as u64;
    if e / p >= 2 {
        FilterView { curr: Set::empty(), last: Set::empty(), curr_time: start }
    } else if e / p == 1 {
        FilterView { curr: Set::empty(), last: o.curr, curr_time: start }
    } else {
        o
    }
}

/// How one `check` of `b` at `now` moves the filter from `o` to `n`: the
/// filters are aged to `now`, then `b` is recorded in the current one. A
/// value that either aged filter holds is refused.
pub open spec fn check_step(o: FilterView, b: Seq<u8>, now: u64, n: FilterView, r: bool) -> bool {
    let a = aged(o, now);
    &&& n.curr == a.curr.insert(b)
    &&& n.last == a.last
    &&& n.curr_time == a.curr_time
    &&& (a.curr.contains(b) || a.last.contains(b)) ==> !r
}

/// `b`, checked at `t0`, is still remembered: in the current filter, whose
/// period holds `t0`, or in the previous one, whose period held it.
pub open spec fn remembers(f: FilterView, b: Seq<u8>, t0: u64) -> bool {
    ||| (f.curr.contains(b) && f.curr_time <= t0 && t0 - f.curr_time < PERIOD_MS)
    ||| (f.last.contains(b) && f.curr_time > t0 && f.curr_time - t0 <= PERIOD_MS)
}

/// Every record of `b` in the filters dates from `t0` or before: in the
/// current filter only if its period started by `t0`, in the previous one
/// only if the current period started within ten minutes after `t0`.
pub open spec fn recorded_by(f: FilterView, b: Seq<u8>, t0: u64) -> bool {
    &&& f.curr.contains(b) ==> f.curr_time <= t0
    &&& f.last.contains(b) ==> f.curr_time <= t0 + PERIOD_MS
}

/// The verdict of a check from the two filters' answers: fresh unless the
/// current filter had the value or the previous one has it.
pub fn fresh(seen_now: bool, seen_before: bool) -> (r: bool)
    ensures
        r == !(seen_now || seen_before),
{
    !(seen_now || seen_before)
}

impl View for RecentFilter {
    type V = FilterView;

    closed spec fn view(&self) -> FilterView {
        FilterView {
            curr: bloom_items(self.curr_bloom),
            last: bloom_items(self.last_bloom),
            curr_time: self.curr_time,
        }
    }
}

impl RecentFilter {
    /// Two empty filters, the current one starting at `now`.
    pub fn new(now: u64) -> (r: RecentFilter)
        ensures
            r@.curr == Set::<Seq<u8>>::empty(),
            r@.last == Set::<Seq<u8>>::empty(),
            r@.curr_time == now,
    {
        RecentFilter {
            curr_bloom: bloom_new(FILTER_BYTES, FILTER_ITEMS),
            last_bloom: bloom_new(FILTER_BYTES, FILTER_ITEMS),
            curr_time: now,
        }
    }

    /// Records `val` and returns whether it was fresh: `fresh` of what the
    /// current filter said before recording it and what the previous filter
    /// says. Ages the filters first as `check_step` describes.
    pub fn check(&mut self, val: &[u8], now: u64) -> (r: bool)
        ensures
            check_step(old(self)@, val@, now, final(self)@, r),
    {
        let since = if now >= self.curr_time { now - self.curr_time } else { 0 };
        let periods = since / PERIOD_MS;
        if periods >= 2 {
            bloom_clear(&mut self.curr_bloom);
            bloom_clear(&mut self.last_bloom);
            self.curr_time = now - since % PERIOD_MS;
        } else if periods == 1 {
            std::mem::swap(&mut self.curr_bloom, &mut self.last_bloom);
            bloom_clear(&mut self.curr_bloom);
            self.curr_time = now - since % PERIOD_MS;
        }
        assert(self@ == aged(old(self)@, now));
        let seen_now = bloom_check_and_set(&mut self.curr_bloom, val);
        let seen_before = bloom_check(&self.last_bloom, val);
        fresh(seen_now, seen_before)
    }
}

/// A check records what it checked, and nothing newer than it.
pub proof fn lemma_check_records(o: FilterView, b: Seq<u8>, now: u64, n: FilterView, r: bool)
    requires
        check_step(o, b, now, n, r),
        o.curr_time <= now,
    ensures
        remembers(n, b, now),
        recorded_by(n, b, now),
{
}

/// Checks of other values keep every record of `b` no newer than `t0`.
pub proof fn lemma_recorded_by_persists(
    o: FilterView,
    b: Seq<u8>,
    t0: u64,
    x: Seq<u8>,
    now: u64,
    n: FilterView,
    r: bool,
)
    requires
        recorded_by(o, b, t0),
        x != b,
        check_step(o, x, now, n, r),
    ensures
        recorded_by(n, b, t0),
{
}

/// Memory lasts at least ten minutes: what is remembered since `t0` stays
/// remembered across any check made within ten minutes of `t0`.
pub proof fn lemma_memory_persists(
    o: FilterView,
    b: Seq<u8>,
    t0: u64,
    x: Seq<u8>,
    now: u64,
    n: FilterView,
    r: bool,
)
    requires
        remembers(o, b, t0),
        t0 <= now,
        now - t0 <= PERIOD_MS,
        check_step(o, x, now, n, r),
    ensures
        remembers(n, b, t0),
{
}

/// Replay suppression: a byte string still remembered from a check at `t0`
/// is refused by a check within ten minutes of `t0`.
pub proof fn lemma_replay_refused(o: FilterView, b: Seq<u8>, t0: u64, now: u64, n: FilterView, r: bool)
    requires
        remembers(o, b, t0),
        t0 <= now,
        now - t0 <= PERIOD_MS,
        check_step(o, b, now, n, r),
    ensures
        !r,
{
}

/// Memory lasts at most twenty minutes: if `b` was last recorded by `t0`,
/// then at twenty minutes after `t0` or later neither aged filter holds it,
/// so only a false positive of the filters can refuse it.
pub proof fn lemma_forgotten(o: FilterView, b: Seq<u8>, t0: u64, now: u64)
    requires
        recorded_by(o, b, t0),
        o.curr_time <= now,
        t0 <= now,
        now - t0 >= 2 * PERIOD_MS,
    ensures
        !aged(o, now).curr.contains(b),
        !aged(o, now).last.contains(b),
{
}

} // verus!
