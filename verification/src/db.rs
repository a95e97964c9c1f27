//! A series of positions, one per minute: the builder that fills it and the
//! reader that replays it.
//!
//! A series is a row of packed words and the minute, counted from the epoch,
//! at which it begins. The words hold deltas; replaying them from code zero
//! gives one code for every minute from the first on. A minute without a
//! sample of its own repeats the position before it.

use crate::bsp::{
    latlng_to_packed, lemma_stored_position, packed_to_latlng, spec_code, spec_position,
    spec_stored, LatLng, CODE_LIMIT,
};
use crate::delta::{
    apply_delta, calculate_difference, lemma_difference_then_apply, spec_apply_delta,
    spec_difference,
};
use crate::error::Error;
use crate::simple8b::{
    pack, packable, spec_pack, spec_too_large, spec_unpack, storable, unpack,
};
use vstd::pervasive::unreached;
use vstd::prelude::*;

verus! {

/// The code that a replay starts from.
pub const ORIGIN: u64 = 0;

/// The largest distance, in millimetres, by which a stored position may miss
/// the position that was measured.
pub const MAX_ERROR_MM: u32 = 8000;

/// One more than the largest time stamp, in seconds, whose minute a series can hold.
pub const MAX_SECONDS: i64 = 60 * 0x1_0000_0000;

/// The longest that the pending deltas grow before a word is written.
pub const FLUSH_LENGTH: usize = 60;

/// What a series holds: the minute it begins at and one code for each minute
/// from there on.
pub struct Series {
    pub beginning_minutes: u32,
    pub codes: Seq<u64>,
}

/// The minute that a time stamp in seconds falls in.
pub open spec fn spec_minute(seconds: i64) -> int {
    seconds as int / 60
}

/// The values of all `words`, in order.
pub open spec fn spec_unpack_all(words: Seq<u64>) -> Seq<u64>
    decreases words.len(),
{
    if words.len() == 0 {
        Seq::empty()
    } else {
        spec_unpack_all(words.drop_last()) + spec_unpack(words.last())
    }
}

/// The code that the first `n` of `deltas` lead to from the origin.
pub open spec fn spec_replay(deltas: Seq<u64>, n: int) -> int
    decreases n,
{
    if n <= 0 {
        ORIGIN as int
    } else {
        spec_apply_delta(spec_replay(deltas, n - 1), deltas[n - 1])
    }
}

/// Whether every code on the way through `deltas` is a code of a position.
pub open spec fn spec_replays(deltas: Seq<u64>) -> bool {
    forall|n: int| 0 <= n <= deltas.len() ==> 0 <= #[trigger] spec_replay(deltas, n) < CODE_LIMIT
}

/// The codes that `deltas` stand for, one for each delta.
pub open spec fn spec_codes(deltas: Seq<u64>) -> Seq<u64> {
    Seq::new(deltas.len(), |minute: int| spec_replay(deltas, minute + 1) as u64)
}

/// The deltas that `codes` are stored as: each the step from the code before
/// it, the first the step from the origin.
pub open spec fn spec_differences(codes: Seq<u64>) -> Seq<u64> {
    Seq::new(
        codes.len(),
        |i: int|
            spec_difference(
                if i == 0 {
                    ORIGIN
                } else {
                    codes[i - 1]
                },
                codes[i],
            ) as u64,
    )
}

/// Whether `deltas` are the steps between the codes that they replay to.
#[verifier::opaque]
pub open spec fn spec_canonical(deltas: Seq<u64>) -> bool {
    deltas == spec_differences(spec_codes(deltas))
}

/// Whether a word is packed from `pending` now. While a series is built, a
/// word is due once [`FLUSH_LENGTH`] deltas or more are pending and the last
/// of them is not zero; when it is finished, every pending delta is packed.
pub open spec fn spec_ready(pending: Seq<u64>, finish: bool) -> bool {
    if finish {
        pending.len() > 0
    } else {
        pending.len() >= FLUSH_LENGTH && pending.last() != 0
    }
}

/// The words and the pending deltas after words were packed from the front of
/// `pending`, one after the other, for as long as one was ready.
pub open spec fn spec_flush(words: Seq<u64>, pending: Seq<u64>, finish: bool) -> (
    Seq<u64>,
    Seq<u64>,
)
    decreases pending.len(),
{
    let (word, count) = spec_pack(pending);
    if spec_ready(pending, finish) && 0 < count <= pending.len() {
        spec_flush(words.push(word), pending.skip(count), finish)
    } else {
        (words, pending)
    }
}

/// The words that a builder has written and the deltas that it holds back
/// after it took `deltas` one by one and packed what was ready after each.
pub open spec fn spec_written(deltas: Seq<u64>) -> (Seq<u64>, Seq<u64>)
    decreases deltas.len(),
{
    if deltas.len() == 0 {
        (Seq::empty(), Seq::empty())
    } else {
        let (words, pending) = spec_written(deltas.drop_last());
        spec_flush(words, pending.push(deltas.last()), false)
    }
}

/// The words of the finished series of `codes`.
pub open spec fn spec_words(codes: Seq<u64>) -> Seq<u64> {
    let (words, pending) = spec_written(spec_differences(codes));
    spec_flush(words, pending, true).0
}

/// Whether `words` are the words of the finished series that they replay to.
#[verifier::opaque]
pub open spec fn spec_finished(words: Seq<u64>) -> bool {
    words == spec_words(spec_codes(spec_unpack_all(words)))
}

/// Whether a series turns down a sample of `minute`: it has a sample of that
/// minute or of a later one.
pub open spec fn spec_rejects(series: Series, minute: int) -> bool {
    series.codes.len() > 0 && minute - series.beginning_minutes < series.codes.len()
}

/// The series after it took a sample of `minute` with `code`. The first sample
/// sets the beginning; a later one is preceded by the last code, repeated for
/// every minute that was skipped.
pub open spec fn spec_add(series: Series, minute: int, code: u64) -> Series {
    if series.codes.len() == 0 {
        Series { beginning_minutes: minute as u32, codes: seq![code] }
    } else {
        let skipped = minute - series.beginning_minutes - series.codes.len();
        Series {
            beginning_minutes: series.beginning_minutes,
            codes: series.codes + Seq::new(skipped as nat, |i: int| series.codes.last()) + seq![
                code,
            ],
        }
    }
}

/// One more word adds its values behind those of the words before it.
proof fn lemma_unpack_all_push(words: Seq<u64>, word: u64)
    ensures
        spec_unpack_all(words.push(word)) == spec_unpack_all(words) + spec_unpack(word),
{
    assert(words.push(word).drop_last() =~= words);
}

/// The values of the first `k` words come first among the values of all
/// words, and those of word `k` follow them.
proof fn lemma_unpack_all_take(words: Seq<u64>, k: int)
    requires
        0 <= k < words.len(),
    ensures
        spec_unpack_all(words.take(k + 1)) == spec_unpack_all(words.take(k)) + spec_unpack(
            words[k],
        ),
        spec_unpack_all(words.take(k + 1)).len() <= spec_unpack_all(words).len(),
        spec_unpack_all(words.take(k + 1)) == spec_unpack_all(words).take(
            spec_unpack_all(words.take(k + 1)).len() as int,
        ),
    decreases words.len() - k,
{
    assert(words.take(k + 1).drop_last() =~= words.take(k));
    if k + 1 == words.len() {
        assert(words.take(k + 1) =~= words);
    } else {
        lemma_unpack_all_take(words, k + 1);
        let longer = spec_unpack_all(words.take(k + 2));
        let this = spec_unpack_all(words.take(k + 1));
        assert(this =~= longer.take(this.len() as int));
        assert(this =~= spec_unpack_all(words).take(this.len() as int));
    }
}

/// Deltas that follow do not change the codes that the deltas before them lead to.
proof fn lemma_replay_prefix(deltas: Seq<u64>, more: Seq<u64>, n: int)
    requires
        n <= deltas.len(),
    ensures
        spec_replay(deltas + more, n) == spec_replay(deltas, n),
    decreases n,
{
    if n > 0 {
        lemma_replay_prefix(deltas, more, n - 1);
    }
}

/// One more delta adds one code and leaves the codes before it as they are.
proof fn lemma_codes_push(deltas: Seq<u64>, delta: u64)
    requires
        spec_replays(deltas),
        0 <= spec_apply_delta(spec_replay(deltas, deltas.len() as int), delta) < CODE_LIMIT,
    ensures
        spec_replays(deltas.push(delta)),
        spec_replay(deltas.push(delta), deltas.len() as int + 1) == spec_apply_delta(
            spec_replay(deltas, deltas.len() as int),
            delta,
        ),
        spec_codes(deltas.push(delta)) == spec_codes(deltas).push(
            spec_apply_delta(spec_replay(deltas, deltas.len() as int), delta) as u64,
        ),
        spec_canonical(deltas) && delta == spec_difference(
            spec_replay(deltas, deltas.len() as int) as u64,
            spec_apply_delta(spec_replay(deltas, deltas.len() as int), delta) as u64,
        ) ==> spec_canonical(deltas.push(delta)),
{
    reveal(spec_canonical);
    let longer = deltas.push(delta);
    assert(longer =~= deltas + seq![delta]);
    assert forall|n: int| 0 <= n <= deltas.len() implies #[trigger] spec_replay(longer, n)
        == spec_replay(deltas, n) by {
        lemma_replay_prefix(deltas, seq![delta], n);
    }
    assert(spec_replay(longer, deltas.len() as int) == spec_replay(deltas, deltas.len() as int));
    assert(longer[deltas.len() as int] == delta);
    assert(spec_replay(longer, deltas.len() as int + 1) == spec_apply_delta(
        spec_replay(longer, deltas.len() as int),
        delta,
    ));
    assert forall|n: int| 0 <= n <= longer.len() implies 0 <= #[trigger] spec_replay(longer, n)
        < CODE_LIMIT by {
        if n <= deltas.len() {
            assert(spec_replay(longer, n) == spec_replay(deltas, n));
        }
    }
    assert(spec_codes(longer) =~= spec_codes(deltas).push(
        spec_apply_delta(spec_replay(deltas, deltas.len() as int), delta) as u64,
    ));
    if deltas == spec_differences(spec_codes(deltas)) && delta == spec_difference(
        spec_replay(deltas, deltas.len() as int) as u64,
        spec_apply_delta(spec_replay(deltas, deltas.len() as int), delta) as u64,
    ) {
        let codes = spec_codes(deltas);
        let more = spec_codes(longer);
        assert forall|i: int| 0 <= i < longer.len() implies longer[i] == spec_differences(
            more,
        )[i] by {
            if i < deltas.len() {
                assert(deltas[i] == spec_differences(codes)[i]);
            }
        }
        assert(longer =~= spec_differences(more));
    }
}

/// A sample that is taken some minutes after the last one puts the last code
/// into every minute between the two and its own code into its own minute;
/// what the series held before stays as it was.
pub proof fn lemma_add_fills_gap(series: Series, minute: int, code: u64)
    requires
        series.codes.len() > 0,
        !spec_rejects(series, minute),
    ensures
        ({
            let after = spec_add(series, minute, code);
            let offset = minute - series.beginning_minutes;
            &&& after.beginning_minutes == series.beginning_minutes
            &&& after.codes.len() == offset + 1
            &&& forall|m: int| 0 <= m < series.codes.len() ==> after.codes[m] == series.codes[m]
            &&& forall|m: int|
                series.codes.len() <= m < offset ==> after.codes[m] == series.codes.last()
            &&& after.codes[offset] == code
        }),
{
}

/// A position that a series took is found again at its minute, moved to the
/// lower corner of its cell.
pub proof fn lemma_added_position_is_found(series: Series, minute: int, pos: LatLng)
    requires
        0 <= minute <= u32::MAX,
        !spec_rejects(series, minute),
    ensures
        ({
            let after = spec_add(series, minute, spec_code(pos) as u64);
            let target = minute - after.beginning_minutes;
            &&& 0 <= target < after.codes.len()
            &&& spec_position(after.codes[target]) == spec_stored(pos)
        }),
{
    lemma_stored_position(pos);
}

/// A sample of a minute that a series already covers is turned down, and so is
/// every sample of an earlier minute.
pub proof fn lemma_covered_minute_is_rejected(series: Series, minute: int, earlier: int)
    requires
        spec_rejects(series, minute),
        earlier <= minute,
    ensures
        spec_rejects(series, earlier),
{
}

/// `Vec::shrink_to_fit` of std: it gives back capacity that is not in use and
/// leaves the contents of the vector as they are.
#[verifier::external_body]
fn shrink_to_fit(words: &mut Vec<u64>)
    ensures
        final(words)@ == old(words)@,
{
    words.shrink_to_fit();
}

/// A finished series: read-only.
pub struct GeoDB {
    beginning_minutes: u32,
    points: Vec<u64>,
}

impl View for GeoDB {
    type V = Series;

    closed spec fn view(&self) -> Series {
        Series {
            beginning_minutes: self.beginning_minutes,
            codes: spec_codes(spec_unpack_all(self.points@)),
        }
    }
}

impl Default for GeoDB {
    /// A series without positions.
    fn default() -> (db: Self)
        ensures
            db.wf(),
            db@.codes.len() == 0,
            db@.beginning_minutes == 0,
            db.spec_points().len() == 0,
    {
        let db = GeoDB { beginning_minutes: 0, points: Vec::new() };
        assert(spec_canonical(spec_unpack_all(db.points@)) && spec_finished(db.points@)) by {
            reveal(spec_canonical);
            reveal(spec_finished);
            let deltas = spec_unpack_all(db.points@);
            assert(deltas =~= spec_differences(spec_codes(deltas)));
            assert(spec_written(deltas) == (Seq::<u64>::empty(), Seq::<u64>::empty()));
            assert(db.points@ =~= spec_words(spec_codes(deltas)));
        }
        db
    }
}

impl GeoDB {
    /// Whether the words replay to codes of positions, one for each minute
    /// that a series can count.
    pub closed spec fn wf(&self) -> bool {
        let deltas = spec_unpack_all(self.points@);
        &&& spec_replays(deltas)
        &&& spec_canonical(deltas)
        &&& spec_finished(self.points@)
        &&& deltas.len() <= 0x1_0000_0000
    }

    /// The words of a series are those that its codes are packed into: they
    /// hold the steps from each code to the next, and nothing else.
    pub proof fn lemma_words_of_series(&self)
        requires
            self.wf(),
        ensures
            self.spec_points() == spec_words(self@.codes),
            spec_unpack_all(self.spec_points()) == spec_differences(self@.codes),
            self@.codes.len() <= 0x1_0000_0000,
            forall|minute: int|
                0 <= minute < self@.codes.len() ==> #[trigger] self@.codes[minute] < CODE_LIMIT,
    {
        reveal(spec_canonical);
        reveal(spec_finished);
        let deltas = spec_unpack_all(self.points@);
        assert forall|minute: int| 0 <= minute < self@.codes.len() implies #[trigger] self@.codes[minute]
            < CODE_LIMIT by {
            assert(0 <= spec_replay(deltas, minute + 1) < CODE_LIMIT);
        }
    }

    /// The packed words of the series.
    pub closed spec fn spec_points(&self) -> Seq<u64> {
        self.points@
    }

    /// The minute, counted from the epoch, of the first position.
    pub fn beginning_minutes(&self) -> (minutes: u32)
        ensures
            minutes == self@.beginning_minutes,
    {
        self.beginning_minutes
    }

    /// The packed words of the series.
    pub fn points(&self) -> (words: &Vec<u64>)
        ensures
            words@ == self.spec_points(),
    {
        &self.points
    }

    /// A reader at the first minute of the series.
    pub fn into_iter(&self) -> (iter: DbIter<'_>)
        requires
            self.wf(),
        ensures
            iter.wf(),
            iter.series() == self@.codes,
            iter.position() == 0,
    {
        let iter = DbIter {
            db: self,
            vec_id: 0,
            u64_vec: Vec::new(),
            u64_vec_id: 0,
            current: ORIGIN,
            minutes: 0,
        };
        assert(self.points@.take(0) =~= Seq::<u64>::empty());
        iter
    }

    /// The position at the minute that the time stamp `seconds` falls in.
    ///
    /// Fails with [`Error::NoDataPoint`] when that minute lies before the
    /// beginning of the series or after its last position.
    pub fn pos(&self, seconds: i64) -> (result: Result<LatLng, Error>)
        requires
            self.wf(),
        ensures
            match result {
                Ok(pos) => {
                    let target = spec_minute(seconds) - self@.beginning_minutes;
                    &&& 0 <= target < self@.codes.len()
                    &&& pos == spec_position(self@.codes[target])
                },
                Err(e) => {
                    let target = spec_minute(seconds) - self@.beginning_minutes;
                    &&& e == Error::NoDataPoint
                    &&& !(0 <= target < self@.codes.len())
                },
            },
    {
        if seconds < 0 {
            return Err(Error::NoDataPoint);
        }
        let minute = (seconds as u64) / 60;
        if minute < self.beginning_minutes as u64 {
            return Err(Error::NoDataPoint);
        }
        let target_minutes = minute - self.beginning_minutes as u64;
        let mut iter = self.into_iter();
        let mut packed: u64 = ORIGIN;
        let mut taken: u64 = 0;
        while taken <= target_minutes
            invariant
                iter.wf(),
                iter.series() == self@.codes,
                iter.position() == taken,
                taken <= target_minutes + 1,
                target_minutes == spec_minute(seconds) - self@.beginning_minutes,
                taken > 0 ==> taken <= self@.codes.len() && packed == self@.codes[taken - 1],
            decreases target_minutes + 1 - taken,
        {
            match iter.next() {
                None => {
                    return Err(Error::NoDataPoint);
                },
                Some(code) => {
                    packed = code;
                },
            }
            taken += 1;
        }
        Ok(packed_to_latlng(packed))
    }
}

/// Collects the positions of a series in the order of their time.
pub struct Builder {
    db: GeoDB,
    started: bool,
    last_minutes: u32,
    reference: u64,
    buffer: Vec<u64>,
    last_pos: LatLng,
}

impl View for Builder {
    type V = Series;

    closed spec fn view(&self) -> Series {
        Series { beginning_minutes: self.db.beginning_minutes, codes: spec_codes(self.deltas()) }
    }
}

impl Default for Builder {
    /// A builder without positions.
    fn default() -> (builder: Self)
        ensures
            builder.wf(),
            builder@.codes.len() == 0,
            builder@.beginning_minutes == 0,
    {
        Builder::new()
    }
}

impl Builder {
    /// All deltas taken so far: those in written words, then the pending ones.
    closed spec fn deltas(&self) -> Seq<u64> {
        spec_unpack_all(self.db.points@) + self.buffer@
    }

    /// What holds between any two steps of the builder: the deltas replay to
    /// codes of positions, the reference is the last of these codes and the
    /// code of the last position, and every pending delta can be packed.
    closed spec fn inv(&self) -> bool {
        &&& spec_replays(self.deltas())
        &&& spec_canonical(self.deltas())
        &&& self.reference == spec_replay(self.deltas(), self.deltas().len() as int)
        &&& self.deltas().len() > 0 ==> self.reference == spec_code(self.last_pos)
        &&& forall|i: int|
            0 <= i < self.buffer@.len() ==> storable(#[trigger] self.buffer@[i])
                && self.buffer@[i] != 0
    }

    /// Whether the words and the pending deltas are those that the deltas
    /// taken so far leave behind.
    closed spec fn written(&self) -> bool {
        (self.db.points@, self.buffer@) == spec_written(self.deltas())
    }

    /// Whether the builder is in order between two samples: besides what
    /// always holds, it has one code for every minute up to the last sample,
    /// and has packed what was ready.
    pub closed spec fn wf(&self) -> bool {
        &&& self.inv()
        &&& self.written()
        &&& self.started <==> self.deltas().len() > 0
        &&& self.started ==> self.deltas().len() == self.last_minutes + 1
        &&& self.buffer@.len() < FLUSH_LENGTH
    }

    /// The code of the last position, and the origin before the first.
    pub closed spec fn spec_reference(&self) -> u64 {
        self.reference
    }

    /// The deltas that no word holds yet.
    pub closed spec fn spec_pending(&self) -> Seq<u64> {
        self.buffer@
    }

    /// The words written so far.
    pub closed spec fn spec_points(&self) -> Seq<u64> {
        self.db.points@
    }

    /// The words that a builder has written and the deltas that it holds back
    /// are those that the steps between its codes leave behind.
    pub proof fn lemma_written(&self)
        requires
            self.wf(),
        ensures
            (self.spec_points(), self.spec_pending()) == spec_written(
                spec_differences(self@.codes),
            ),
    {
        reveal(spec_canonical);
    }

    /// A builder without positions.
    pub fn new() -> (builder: Self)
        ensures
            builder.wf(),
            builder@.codes.len() == 0,
            builder@.beginning_minutes == 0,
            builder.spec_reference() == ORIGIN,
            builder.spec_pending().len() == 0,
            builder.spec_points().len() == 0,
    {
        let builder = Builder {
            db: GeoDB::default(),
            started: false,
            last_minutes: 0,
            reference: ORIGIN,
            buffer: Vec::new(),
            last_pos: LatLng { lat: 0, lng: 0 },
        };
        assert(builder.db.points@ =~= Seq::<u64>::empty());
        assert(builder.deltas() =~= Seq::<u64>::empty());
        builder
    }

    /// The code of the last position, and the origin before the first.
    pub fn reference(&self) -> (code: u64)
        ensures
            code == self.spec_reference(),
    {
        self.reference
    }

    /// The number of deltas that no word holds yet.
    pub fn pending(&self) -> (n: usize)
        ensures
            n == self.spec_pending().len(),
    {
        self.buffer.len()
    }

    /// Writes the words that are still pending and hands over the series.
    pub fn build(self) -> (db: GeoDB)
        requires
            self.wf(),
        ensures
            db.wf(),
            db@ == self@,
            db.spec_points() == spec_words(self@.codes),
    {
        let mut builder = self;
        builder.flush_all();
        shrink_to_fit(&mut builder.db.points);
        proof {
            assert(builder.deltas() =~= spec_unpack_all(builder.db.points@));
            reveal(spec_canonical);
            reveal(spec_finished);
        }
        builder.db
    }

    /// Packs one word from the front of the pending deltas.
    fn flush_once(&mut self)
        requires
            old(self).inv(),
            old(self).buffer@.len() > 0,
        ensures
            final(self).inv(),
            final(self).deltas() == old(self).deltas(),
            final(self).buffer@.len() < old(self).buffer@.len(),
            0 < spec_pack(old(self).buffer@).1 <= old(self).buffer@.len(),
            final(self).db.points@ == old(self).db.points@.push(spec_pack(old(self).buffer@).0),
            final(self).buffer@ == old(self).buffer@.skip(spec_pack(old(self).buffer@).1),
            final(self).db.beginning_minutes == old(self).db.beginning_minutes,
            final(self).started == old(self).started,
            final(self).last_minutes == old(self).last_minutes,
            final(self).reference == old(self).reference,
            final(self).last_pos == old(self).last_pos,
    {
        let ghost before = self.buffer@;
        let ghost written = spec_unpack_all(self.db.points@);
        proof {
            if spec_too_large(before) {
                let n = choose|n: int|
                    #[trigger] packable(before, n) && n < before.len()
                        && !storable(before[n]);
                assert(storable(before[n]));
            }
        }
        match pack(self.buffer.as_slice()) {
            Ok((word, count)) => {
                let rest = self.buffer.split_off(count);
                self.buffer = rest;
                proof {
                    lemma_unpack_all_push(self.db.points@, word);
                    assert(written + before =~= (written + before.take(count as int))
                        + before.subrange(count as int, before.len() as int));
                }
                self.db.points.push(word);
            },
            Err(_) => {
                unreached()
            },
        }
    }

    /// Packs words until no delta is pending.
    fn flush_all(&mut self)
        requires
            old(self).inv(),
        ensures
            final(self).inv(),
            final(self).deltas() == old(self).deltas(),
            final(self).buffer@.len() == 0,
            (final(self).db.points@, final(self).buffer@) == spec_flush(
                old(self).db.points@,
                old(self).buffer@,
                true,
            ),
            final(self).db.beginning_minutes == old(self).db.beginning_minutes,
            final(self).started == old(self).started,
            final(self).last_minutes == old(self).last_minutes,
            final(self).reference == old(self).reference,
            final(self).last_pos == old(self).last_pos,
    {
        while self.buffer.len() > 0
            invariant
                self.inv(),
                self.deltas() == old(self).deltas(),
                spec_flush(self.db.points@, self.buffer@, true) == spec_flush(
                    old(self).db.points@,
                    old(self).buffer@,
                    true,
                ),
                self.db.beginning_minutes == old(self).db.beginning_minutes,
                self.started == old(self).started,
                self.last_minutes == old(self).last_minutes,
                self.reference == old(self).reference,
                self.last_pos == old(self).last_pos,
            decreases self.buffer@.len(),
        {
            self.flush_once();
        }
    }

    /// Takes the position of the minute that the time stamp `seconds` falls
    /// in. `error_mm` is the distance on the ground, in millimetres, between
    /// `pos` as it was measured and the position that the series will give
    /// back for it.
    ///
    /// A sample of a minute that the series already covers is turned down with
    /// `Ok(false)`. A sample that would be stored more than [`MAX_ERROR_MM`]
    /// from where it was measured fails with [`Error::PrecisionExceeded`].
    /// Neither changes the builder. Any other sample is taken, after the last
    /// position has been repeated for every minute that was skipped.
    pub fn add(&mut self, seconds: i64, pos: LatLng, error_mm: u32) -> (result: Result<
        bool,
        Error,
    >)
        requires
            old(self).wf(),
            0 <= seconds < MAX_SECONDS,
        ensures
            final(self).wf(),
            final(self).spec_pending().len() < FLUSH_LENGTH,
            match result {
                Ok(taken) => {
                    &&& taken <==> !spec_rejects(old(self)@, spec_minute(seconds))
                    &&& taken ==> error_mm <= MAX_ERROR_MM
                    &&& taken ==> final(self)@ == spec_add(
                        old(self)@,
                        spec_minute(seconds),
                        spec_code(pos) as u64,
                    )
                    &&& taken ==> final(self).spec_reference() == spec_code(pos)
                    &&& !taken ==> *final(self) == *old(self)
                },
                Err(e) => {
                    &&& e == Error::PrecisionExceeded
                    &&& !spec_rejects(old(self)@, spec_minute(seconds))
                    &&& error_mm > MAX_ERROR_MM
                    &&& *final(self) == *old(self)
                },
            },
    {
        let minute = ((seconds as u64) / 60) as u32;
        let first_datapoint = !self.started;
        if !first_datapoint && (minute < self.db.beginning_minutes || minute
            - self.db.beginning_minutes <= self.last_minutes) {
            return Ok(false);
        }
        if error_mm > MAX_ERROR_MM {
            return Err(Error::PrecisionExceeded);
        }
        let ghost before = self@;
        let ghost count = self.deltas().len();
        if first_datapoint {
            self.reference = ORIGIN;
            self.db.beginning_minutes = minute;
            self.started = true;
        }
        let minutes = minute - self.db.beginning_minutes;
        if !first_datapoint {
            let delta_minutes = minutes - self.last_minutes;
            let mut filled: u32 = 1;
            proof {
                assert(before.codes.last() == self.reference);
                assert(self@.codes =~= before.codes + Seq::new(0, |i: int| before.codes.last()));
            }
            while filled < delta_minutes
                invariant
                    1 <= filled <= delta_minutes,
                    self.inv(),
                    self.written(),
                    self.started,
                    count > 0,
                    before.codes.len() == count,
                    self.deltas().len() == count + filled - 1,
                    self.reference == before.codes.last(),
                    self.last_minutes == old(self).last_minutes,
                    self@.beginning_minutes == before.beginning_minutes,
                    self@.codes == before.codes + Seq::new(
                        (filled - 1) as nat,
                        |i: int| before.codes.last(),
                    ),
                decreases delta_minutes - filled,
            {
                let held = self.last_pos;
                let ghost so_far = self@.codes;
                self.push(held);
                filled += 1;
                proof {
                    assert(so_far.push(before.codes.last()) =~= before.codes + Seq::new(
                        (filled - 1) as nat,
                        |i: int| before.codes.last(),
                    ));
                }
            }
        }
        self.last_minutes = minutes;
        self.push(pos);
        proof {
            let after = spec_add(before, spec_minute(seconds), spec_code(pos) as u64);
            assert(self@.codes =~= after.codes);
            assert(self@.beginning_minutes == after.beginning_minutes);
        }
        Ok(true)
    }

    /// Stores `pos` as the position of the next minute.
    fn push(&mut self, pos: LatLng)
        requires
            old(self).inv(),
            old(self).written(),
        ensures
            final(self).inv(),
            final(self).written(),
            final(self)@.codes == old(self)@.codes.push(spec_code(pos) as u64),
            final(self).deltas().len() == old(self).deltas().len() + 1,
            final(self).buffer@.len() < FLUSH_LENGTH,
            final(self).reference == spec_code(pos),
            final(self).db.beginning_minutes == old(self).db.beginning_minutes,
            final(self).started == old(self).started,
            final(self).last_minutes == old(self).last_minutes,
    {
        let transformed = latlng_to_packed(pos);
        let delta = calculate_difference(self.reference, transformed);
        proof {
            lemma_difference_then_apply(self.reference, transformed);
            lemma_codes_push(self.deltas(), delta);
            assert(self.deltas().push(delta) =~= spec_unpack_all(self.db.points@)
                + self.buffer@.push(delta));
        }
        self.buffer.push(delta);
        self.reference = transformed;
        self.last_pos = pos;
        let ghost taken = self.deltas();
        proof {
            assert(taken.drop_last() =~= old(self).deltas());
            assert(taken.last() == delta);
        }
        while self.buffer.len() >= FLUSH_LENGTH && self.buffer[self.buffer.len() - 1] != 0
            invariant
                self.inv(),
                self.deltas() == taken,
                spec_flush(self.db.points@, self.buffer@, false) == spec_written(taken),
                self.db.beginning_minutes == old(self).db.beginning_minutes,
                self.started == old(self).started,
                self.last_minutes == old(self).last_minutes,
                self.reference == transformed,
            decreases self.buffer@.len(),
        {
            self.flush_once();
        }
    }
}

/// A reader that walks a series from its first minute on.
pub struct DbIter<'a> {
    db: &'a GeoDB,
    vec_id: usize,
    u64_vec: Vec<u64>,
    u64_vec_id: usize,
    current: u64,
    minutes: u64,
}

impl<'a> DbIter<'a> {
    /// Whether the reader stands at a place in its series: the word that it
    /// has open is the word at its index, and its code is the one that the
    /// deltas read so far lead to.
    pub closed spec fn wf(&self) -> bool {
        let words = self.db.points@;
        let deltas = spec_unpack_all(words);
        &&& self.db.wf()
        &&& self.vec_id <= words.len()
        &&& self.u64_vec_id <= self.u64_vec@.len()
        &&& self.u64_vec@.len() > 0 ==> self.vec_id < words.len() && self.u64_vec@ == spec_unpack(
            words[self.vec_id as int],
        )
        &&& self.minutes == spec_unpack_all(words.take(self.vec_id as int)).len()
            + self.u64_vec_id
        &&& self.minutes <= deltas.len()
        &&& self.current == spec_replay(deltas, self.minutes as int)
    }

    /// The codes of the series that is read.
    pub closed spec fn series(&self) -> Seq<u64> {
        self.db@.codes
    }

    /// How many codes were handed out.
    pub closed spec fn position(&self) -> nat {
        self.minutes as nat
    }

    /// Hands out the code of the next minute, or `None` after the last one.
    pub fn next(&mut self) -> (item: Option<u64>)
        requires
            old(self).wf(),
        ensures
            final(self).wf(),
            final(self).series() == old(self).series(),
            match item {
                Some(code) => {
                    &&& old(self).position() < old(self).series().len()
                    &&& code == old(self).series()[old(self).position() as int]
                    &&& final(self).position() == old(self).position() + 1
                },
                None => {
                    &&& old(self).position() == old(self).series().len()
                    &&& final(self).position() == old(self).position()
                },
            },
    {
        let ghost words = self.db.points@;
        let ghost deltas = spec_unpack_all(words);
        loop
            invariant
                self.wf(),
                self.db == old(self).db,
                self.minutes == old(self).minutes,
                words == self.db.points@,
                deltas == spec_unpack_all(words),
            decreases words.len() - self.vec_id,
        {
            if self.u64_vec.len() == 0 {
                if self.vec_id >= self.db.points.len() {
                    proof {
                        assert(words.take(self.vec_id as int) =~= words);
                    }
                    return None;
                }
                self.u64_vec = unpack(self.db.points[self.vec_id]);
                self.u64_vec_id = 0;
            }
            proof {
                lemma_unpack_all_take(words, self.vec_id as int);
            }
            if self.u64_vec_id >= self.u64_vec.len() {
                assert(self.vec_id < self.db.points.len());
                self.u64_vec.clear();
                self.vec_id += 1;
                self.u64_vec_id = 0;
                continue ;
            }
            let unpacked = self.u64_vec[self.u64_vec_id];
            proof {
                let before = spec_unpack_all(words.take(self.vec_id as int));
                let through = spec_unpack_all(words.take(self.vec_id + 1));
                assert(through[before.len() + self.u64_vec_id] == unpacked);
                assert(deltas[self.minutes as int] == unpacked);
                assert(spec_replay(deltas, self.minutes + 1) == spec_apply_delta(
                    self.current as int,
                    unpacked,
                ));
            }
            self.current = apply_delta(self.current, unpacked);
            self.u64_vec_id += 1;
            self.minutes += 1;
            return Some(self.current);
        }
    }
}

} // verus!
