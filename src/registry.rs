//! The registry of known devices, shared between the tracking loop and the
//! command handlers, and the rules by which live reports change it.

use crate::numeral::Decimal;
use vstd::arithmetic::div_mod::lemma_div_is_ordered;
use vstd::prelude::*;

verus! {

/// One tracked beacon or mobile tag.
#[derive(Clone, Copy, Debug, PartialEq, Eq, Structural)]
pub struct DeviceRecord {
    pub address: u8,
    /// The device is a mobile tag (a hedgehog) rather than a fixed beacon.
    pub is_hedge: bool,
    /// Coordinates in metres.
    pub x: Decimal,
    pub y: Decimal,
    /// Fix quality; 0 means no usable location.
    pub q: u8,
}

/// One device as the positioning source reports it.
#[derive(Clone, Copy, Debug, PartialEq, Eq, Structural)]
pub struct Sample {
    pub address: u8,
    pub is_hedge: bool,
    /// Coordinates in millimetres.
    pub x_mm: i32,
    pub y_mm: i32,
    pub z_mm: i32,
    pub q: u8,
    /// When the location was measured, in nanoseconds since the Unix epoch.
    pub time_ns: u64,
}

/// One row of the recording: `address,x,y,z,q,t`, with the coordinates in
/// millimetres and `t` in milliseconds since the Unix epoch.
#[derive(Clone, Copy, Debug, PartialEq, Eq, Structural)]
pub struct LogRow {
    pub address: u8,
    pub x_mm: i32,
    pub y_mm: i32,
    pub z_mm: i32,
    pub q: u8,
    pub t_ms: u64,
}

pub const NANOS_PER_MILLI: u64 = 1_000_000;

pub open spec fn record_of(s: Sample) -> DeviceRecord {
    DeviceRecord {
        address: s.address,
        is_hedge: s.is_hedge,
        x: Decimal { units: s.x_mm as i64, places: 3 },
        y: Decimal { units: s.y_mm as i64, places: 3 },
        q: s.q,
    }
}

pub open spec fn row_of(s: Sample) -> LogRow {
    LogRow {
        address: s.address,
        x_mm: s.x_mm,
        y_mm: s.y_mm,
        z_mm: s.z_mm,
        q: s.q,
        t_ms: (s.time_ns / NANOS_PER_MILLI) as u64,
    }
}

pub open spec fn has_address(devs: Seq<DeviceRecord>, address: u8) -> bool {
    exists|i: int| 0 <= i < devs.len() && (#[trigger] devs[i]).address == address
}

pub open spec fn unique_addresses(devs: Seq<DeviceRecord>) -> bool {
    forall|i: int, j: int|
        0 <= i < devs.len() && 0 <= j < devs.len() && i != j ==> (#[trigger] devs[i]).address
            != (#[trigger] devs[j]).address
}

/// The roster after `rec` is seeded: it replaces the record at its address,
/// or joins the end of the roster when there is none.
pub open spec fn seed_one(devs: Seq<DeviceRecord>, rec: DeviceRecord) -> Seq<DeviceRecord> {
    if has_address(devs, rec.address) {
        devs.map_values(|d: DeviceRecord| if d.address == rec.address { rec } else { d })
    } else {
        devs.push(rec)
    }
}

pub open spec fn seed_all(devs: Seq<DeviceRecord>, recs: Seq<DeviceRecord>) -> Seq<DeviceRecord>
    decreases recs.len(),
{
    if recs.len() == 0 {
        devs
    } else {
        seed_one(seed_all(devs, recs.drop_last()), recs.last())
    }
}

/// The roster after a position report: a usable fix (`q > 0`) overwrites the
/// position and quality of the record at `address`; nothing else changes,
/// and no record is made.
pub open spec fn merged(devs: Seq<DeviceRecord>, address: u8, x: Decimal, y: Decimal, q: u8) -> Seq<
    DeviceRecord,
> {
    if q > 0 {
        devs.map_values(
            |d: DeviceRecord|
                if d.address == address {
                    DeviceRecord { x, y, q, ..d }
                } else {
                    d
                },
        )
    } else {
        devs
    }
}

/// What the tracking loop keeps between refreshes: the roster, the time of
/// the last recorded sample, and the rows recorded so far.
pub struct LoopState {
    pub devices: Seq<DeviceRecord>,
    pub watermark_ns: u64,
    pub rows: Seq<LogRow>,
}

/// One sample of a refresh: a usable fix is merged; while recording, a mobile
/// tag's sample newer than the watermark is recorded and moves it.
pub open spec fn refresh_step(t: LoopState, recording: bool, s: Sample) -> LoopState {
    if s.q == 0 {
        t
    } else {
        let devices = merged(t.devices, s.address, record_of(s).x, record_of(s).y, s.q);
        if recording && s.is_hedge && s.time_ns > t.watermark_ns {
            LoopState { devices, watermark_ns: s.time_ns, rows: t.rows.push(row_of(s)) }
        } else {
            LoopState { devices, ..t }
        }
    }
}

pub open spec fn refreshed(t: LoopState, recording: bool, batch: Seq<Sample>) -> LoopState
    decreases batch.len(),
{
    if batch.len() == 0 {
        t
    } else {
        refresh_step(refreshed(t, recording, batch.drop_last()), recording, batch.last())
    }
}

/// The registry: the run flag of the tracking loop, the roster, and the
/// recording state.
pub struct Registry {
    /// Set by the first start of the tracking loop, and never cleared.
    pub is_running: bool,
    pub devices: Vec<DeviceRecord>,
    pub recording: bool,
    /// Time of the last sample recorded, in nanoseconds since the Unix epoch.
    pub watermark_ns: u64,
    /// The rows handed out for the recording since it was last begun.
    pub log: Ghost<Seq<LogRow>>,
}

/// The first line of every recording.
pub open spec fn log_header() -> Seq<char> {
    "address,x,y,z,q,t\n"@
}

pub open spec fn rows_well_formed(rows: Seq<LogRow>, watermark_ns: u64) -> bool {
    &&& forall|i: int| 0 <= i < rows.len() ==> (#[trigger] rows[i]).q > 0
    &&& forall|i: int|
        0 <= i < rows.len() ==> (#[trigger] rows[i]).t_ms <= watermark_ns / NANOS_PER_MILLI
    &&& forall|i: int, j: int| 0 <= i < j < rows.len() ==> (#[trigger] rows[i]).t_ms <= (#[trigger] rows[j]).t_ms
}

impl Registry {
    pub open spec fn wf(&self) -> bool {
        &&& unique_addresses(self.devices@)
        &&& rows_well_formed(self.log@, self.watermark_ns)
        &&& !self.recording ==> self.log@.len() == 0
    }

    pub fn new() -> (r: Registry)
        ensures
            r.wf(),
            !r.is_running,
            r.devices@.len() == 0,
            !r.recording,
            r.watermark_ns == 0,
            r.log@.len() == 0,
    {
        Registry {
            is_running: false,
            devices: Vec::new(),
            recording: false,
            watermark_ns: 0,
            log: Ghost(Seq::empty()),
        }
    }

    /// Every field but the roster is as in `other`.
    pub open spec fn same_but_devices(&self, other: &Registry) -> bool {
        &&& self.is_running == other.is_running
        &&& self.recording == other.recording
        &&& self.watermark_ns == other.watermark_ns
        &&& self.log@ == other.log@
    }

    /// Flips the run flag of the tracking loop. The caller starts the loop
    /// exactly when this returns `true`: on the first call, and never again.
    pub fn try_start(&mut self) -> (r: bool)
        requires
            old(self).wf(),
        ensures
            final(self).wf(),
            start_step(old(self), final(self), r),
    {
        if self.is_running {
            false
        } else {
            self.is_running = true;
            true
        }
    }

    /// A copy of the roster.
    pub fn snapshot(&self) -> (r: Vec<DeviceRecord>)
        ensures
            r@ == self.devices@,
    {
        let mut r: Vec<DeviceRecord> = Vec::new();
        let n = self.devices.len();
        let mut i: usize = 0;
        while i < n
            invariant
                n == self.devices@.len(),
                i <= n,
                r@ == self.devices@.take(i as int),
            decreases n - i,
        {
            r.push(self.devices[i]);
            i = i + 1;
            assert(r@ =~= self.devices@.take(i as int));
        }
        assert(self.devices@.take(n as int) =~= self.devices@);
        r
    }

    /// Applies one position report (see `merged`).
    pub fn merge_update(&mut self, address: u8, x: Decimal, y: Decimal, q: u8)
        requires
            old(self).wf(),
        ensures
            final(self).wf(),
            final(self).devices@ == merged(old(self).devices@, address, x, y, q),
            final(self).same_but_devices(old(self)),
    {
        if q == 0 {
            return ;
        }
        let ghost devs = self.devices@;
        let n = self.devices.len();
        let mut j: usize = 0;
        while j < n
            invariant
                n == self.devices@.len(),
                j <= n,
                self.devices@ == devs,
                devs == old(self).devices@,
                self.wf(),
                self.same_but_devices(old(self)),
                q > 0,
                forall|k: int| 0 <= k < j ==> (#[trigger] devs[k]).address != address,
            decreases n - j,
        {
            if self.devices[j].address == address {
                let d = self.devices[j];
                self.devices.set(j, DeviceRecord { x, y, q, ..d });
                proof {
                    let m = merged(devs, address, x, y, q);
                    assert forall|k: int| 0 <= k < n implies #[trigger] self.devices@[k] == m[k] by {
                        if k != j {
                            assert(devs[k].address != devs[j as int].address);
                        } else {
                            assert(m[k] == (DeviceRecord { x, y, q, ..devs[k] }));
                        }
                    }
                    assert(self.devices@ =~= m);
                    assert(unique_addresses(self.devices@)) by {
                        assert forall|a: int, b: int|
                            0 <= a < n && 0 <= b < n && a != b implies (
                        #[trigger] self.devices@[a]).address != (
                        #[trigger] self.devices@[b]).address by {
                            assert(self.devices@[a].address == devs[a].address);
                            assert(self.devices@[b].address == devs[b].address);
                        }
                    }
                }
                return ;
            }
            j = j + 1;
        }
        assert(self.devices@ =~= merged(devs, address, x, y, q));
    }

    /// Seeds one record (see `seed_one`).
    pub fn seed_record(&mut self, rec: DeviceRecord)
        requires
            old(self).wf(),
        ensures
            final(self).wf(),
            final(self).devices@ == seed_one(old(self).devices@, rec),
            final(self).same_but_devices(old(self)),
    {
        let ghost devs = self.devices@;
        let n = self.devices.len();
        let mut j: usize = 0;
        while j < n
            invariant
                n == self.devices@.len(),
                j <= n,
                self.devices@ == devs,
                devs == old(self).devices@,
                self.wf(),
                self.same_but_devices(old(self)),
                forall|k: int| 0 <= k < j ==> (#[trigger] devs[k]).address != rec.address,
            decreases n - j,
        {
            if self.devices[j].address == rec.address {
                self.devices.set(j, rec);
                proof {
                    assert(has_address(devs, rec.address)) by {
                        assert(devs[j as int].address == rec.address);
                    }
                    assert(self.devices@ =~= seed_one(devs, rec)) by {
                        assert forall|k: int| 0 <= k < n && k != j implies devs[k].address
                            != rec.address by {
                            assert(devs[k].address != devs[j as int].address);
                        }
                    }
                    assert(unique_addresses(self.devices@)) by {
                        assert forall|a: int, b: int|
                            0 <= a < n && 0 <= b < n && a != b implies (
                        #[trigger] self.devices@[a]).address != (
                        #[trigger] self.devices@[b]).address by {
                            assert(self.devices@[a].address == devs[a].address);
                            assert(self.devices@[b].address == devs[b].address);
                        }
                    }
                }
                return ;
            }
            j = j + 1;
        }
        self.devices.push(rec);
        proof {
            assert(!has_address(devs, rec.address));
            assert(self.devices@ =~= seed_one(devs, rec));
            assert(unique_addresses(self.devices@)) by {
                assert forall|a: int, b: int|
                    0 <= a < n + 1 && 0 <= b < n + 1 && a != b implies (
                #[trigger] self.devices@[a]).address != (#[trigger] self.devices@[b]).address by {
                    if a < n && b < n {
                        assert(self.devices@[a] == devs[a]);
                        assert(self.devices@[b] == devs[b]);
                    }
                }
            }
        }
    }

    /// Seeds each record of `recs` in turn.
    pub fn seed(&mut self, recs: &Vec<DeviceRecord>)
        requires
            old(self).wf(),
        ensures
            final(self).wf(),
            final(self).devices@ == seed_all(old(self).devices@, recs@),
            final(self).same_but_devices(old(self)),
    {
        let ghost devs = self.devices@;
        let n = recs.len();
        let mut i: usize = 0;
        while i < n
            invariant
                n == recs@.len(),
                i <= n,
                self.wf(),
                self.devices@ == seed_all(devs, recs@.take(i as int)),
                self.same_but_devices(old(self)),
            decreases n - i,
        {
            self.seed_record(recs[i]);
            proof {
                assert(recs@.take(i + 1).drop_last() =~= recs@.take(i as int));
            }
            i = i + 1;
        }
        assert(recs@.take(n as int) =~= recs@);
    }

    /// Seeds the devices that the positioning source discovered, with their
    /// coordinates taken from millimetres to metres.
    pub fn seed_discovered(&mut self, batch: &Vec<Sample>)
        requires
            old(self).wf(),
        ensures
            final(self).wf(),
            final(self).devices@ == seed_all(old(self).devices@, batch@.map_values(|s: Sample| record_of(s))),
            final(self).same_but_devices(old(self)),
    {
        let ghost devs = self.devices@;
        let ghost recs = batch@.map_values(|s: Sample| record_of(s));
        let n = batch.len();
        let mut i: usize = 0;
        while i < n
            invariant
                n == batch@.len(),
                recs == batch@.map_values(|s: Sample| record_of(s)),
                i <= n,
                self.wf(),
                self.devices@ == seed_all(devs, recs.take(i as int)),
                self.same_but_devices(old(self)),
            decreases n - i,
        {
            let s = batch[i];
            let rec = DeviceRecord {
                address: s.address,
                is_hedge: s.is_hedge,
                x: Decimal::from_millimetres(s.x_mm),
                y: Decimal::from_millimetres(s.y_mm),
                q: s.q,
            };
            self.seed_record(rec);
            proof {
                assert(recs.take(i + 1).drop_last() =~= recs.take(i as int));
                assert(recs.take(i + 1).last() == rec);
            }
            i = i + 1;
        }
        assert(recs.take(n as int) =~= recs);
    }

    /// Starts a recording. The rows recorded before are let go; the caller
    /// writes the returned header to a newly created record.
    pub fn begin_recording(&mut self) -> (header: String)
        requires
            old(self).wf(),
        ensures
            final(self).wf(),
            header@ == log_header(),
            recording_begun(old(self), final(self)),
    {
        self.recording = true;
        self.log = Ghost(Seq::empty());
        let header = String::from_str("address,x,y,z,q,t\n");
        proof {
            reveal_strlit("address,x,y,z,q,t\n");
        }
        header
    }

    /// Stops the recording.
    pub fn end_recording(&mut self)
        requires
            old(self).wf(),
        ensures
            final(self).wf(),
            recording_ended(old(self), final(self)),
    {
        self.recording = false;
        self.log = Ghost(Seq::empty());
    }

    /// The loop state of this registry, with no rows yet from this refresh.
    pub open spec fn loop_state(&self) -> LoopState {
        LoopState { devices: self.devices@, watermark_ns: self.watermark_ns, rows: Seq::empty() }
    }

    /// Merges a refreshed batch of samples, in order (see `refresh_step`), and
    /// returns the rows to append to the recording.
    pub fn apply_refresh(&mut self, batch: &Vec<Sample>) -> (rows: Vec<LogRow>)
        requires
            old(self).wf(),
        ensures
            final(self).wf(),
            final(self).devices@ == refreshed(old(self).loop_state(), old(self).recording, batch@).devices,
            final(self).watermark_ns == refreshed(old(self).loop_state(), old(self).recording, batch@).watermark_ns,
            rows@ == refreshed(old(self).loop_state(), old(self).recording, batch@).rows,
            final(self).log@ == old(self).log@ + rows@,
            final(self).is_running == old(self).is_running,
            final(self).recording == old(self).recording,
    {
        let ghost start = self.loop_state();
        let ghost log0 = self.log@;
        let mut rows: Vec<LogRow> = Vec::new();
        let n = batch.len();
        let mut i: usize = 0;
        while i < n
            invariant
                n == batch@.len(),
                i <= n,
                self.wf(),
                self.is_running == old(self).is_running,
                self.recording == old(self).recording,
                start == old(self).loop_state(),
                log0 == old(self).log@,
                self.devices@ == refreshed(start, self.recording, batch@.take(i as int)).devices,
                self.watermark_ns == refreshed(start, self.recording, batch@.take(i as int)).watermark_ns,
                rows@ == refreshed(start, self.recording, batch@.take(i as int)).rows,
                self.log@ == log0 + rows@,
            decreases n - i,
        {
            let s = batch[i];
            proof {
                assert(batch@.take(i + 1).drop_last() =~= batch@.take(i as int));
                assert(batch@.take(i + 1).last() == s);
            }
            if s.q > 0 {
                self.merge_update(
                    s.address,
                    Decimal::from_millimetres(s.x_mm),
                    Decimal::from_millimetres(s.y_mm),
                    s.q,
                );
                if self.recording && s.is_hedge && s.time_ns > self.watermark_ns {
                    let row = LogRow {
                        address: s.address,
                        x_mm: s.x_mm,
                        y_mm: s.y_mm,
                        z_mm: s.z_mm,
                        q: s.q,
                        t_ms: s.time_ns / NANOS_PER_MILLI,
                    };
                    let ghost old_log = self.log@;
                    let ghost old_mark = self.watermark_ns;
                    rows.push(row);
                    self.watermark_ns = s.time_ns;
                    self.log = Ghost(self.log@.push(row));
                    proof {
                        assert(self.log@ =~= log0 + rows@);
                        lemma_div_is_ordered(old_mark as int, s.time_ns as int, NANOS_PER_MILLI as int);
                        assert(rows_well_formed(self.log@, self.watermark_ns)) by {
                            let l = self.log@;
                            assert forall|a: int, b: int| 0 <= a < b < l.len() implies (
                            #[trigger] l[a]).t_ms <= (#[trigger] l[b]).t_ms by {
                                if b < l.len() - 1 {
                                    assert(l[a] == old_log[a]);
                                    assert(l[b] == old_log[b]);
                                } else {
                                    assert(l[a] == old_log[a]);
                                }
                            }
                            assert forall|a: int| 0 <= a < l.len() implies (
                            #[trigger] l[a]).t_ms <= self.watermark_ns / NANOS_PER_MILLI by {
                                if a < l.len() - 1 {
                                    assert(l[a] == old_log[a]);
                                }
                            }
                            assert forall|a: int| 0 <= a < l.len() implies (
                            #[trigger] l[a]).q > 0 by {
                                if a < l.len() - 1 {
                                    assert(l[a] == old_log[a]);
                                }
                            }
                        }
                    }
                }
            }
            i = i + 1;
        }
        assert(batch@.take(n as int) =~= batch@);
        rows
    }
}

/// A start of the tracking loop: the flag is set, and the loop is launched
/// exactly when it was clear before; nothing else changes.
pub open spec fn start_step(before: &Registry, after: &Registry, launched: bool) -> bool {
    &&& launched == !before.is_running
    &&& after.is_running
    &&& after.devices@ == before.devices@
    &&& after.recording == before.recording
    &&& after.watermark_ns == before.watermark_ns
    &&& after.log@ == before.log@
}

/// A recording begun: it holds no rows yet, and the rest is kept.
pub open spec fn recording_begun(before: &Registry, after: &Registry) -> bool {
    &&& after.recording
    &&& after.log@ == Seq::<LogRow>::empty()
    &&& after.is_running == before.is_running
    &&& after.devices@ == before.devices@
    &&& after.watermark_ns == before.watermark_ns
}

/// A recording ended: no rows are held, and the rest is kept.
pub open spec fn recording_ended(before: &Registry, after: &Registry) -> bool {
    &&& !after.recording
    &&& after.log@ == Seq::<LogRow>::empty()
    &&& after.is_running == before.is_running
    &&& after.devices@ == before.devices@
    &&& after.watermark_ns == before.watermark_ns
}

/// A refresh in which no sample has a usable fix changes nothing: no
/// coordinates, no quality, no recorded row.
pub proof fn lemma_no_fix_changes_nothing(t: LoopState, recording: bool, batch: Seq<Sample>)
    requires
        forall|i: int| 0 <= i < batch.len() ==> (#[trigger] batch[i]).q == 0,
    ensures
        refreshed(t, recording, batch) == t,
    decreases batch.len(),
{
    if batch.len() > 0 {
        lemma_no_fix_changes_nothing(t, recording, batch.drop_last());
        assert(batch.last() == batch[batch.len() - 1]);
    }
}

/// A position report for an address that no record holds changes nothing.
pub proof fn lemma_unknown_address_ignored(devs: Seq<DeviceRecord>, address: u8, x: Decimal, y: Decimal, q: u8)
    requires
        !has_address(devs, address),
    ensures
        merged(devs, address, x, y, q) == devs,
{
    if q > 0 {
        assert(merged(devs, address, x, y, q) =~= devs) by {
            assert forall|i: int| 0 <= i < devs.len() implies devs[i].address != address by {
                if devs[i].address == address {
                    assert(has_address(devs, address));
                }
            }
        }
    }
}

/// A refresh never makes a record: the roster keeps its length, and each
/// record its address and kind.
pub proof fn lemma_refresh_keeps_roster(t: LoopState, recording: bool, batch: Seq<Sample>)
    ensures
        refreshed(t, recording, batch).devices.len() == t.devices.len(),
        forall|i: int|
            0 <= i < t.devices.len() ==> (#[trigger] refreshed(t, recording, batch).devices[i]).address
                == t.devices[i].address && refreshed(t, recording, batch).devices[i].is_hedge
                == t.devices[i].is_hedge,
    decreases batch.len(),
{
    if batch.len() > 0 {
        lemma_refresh_keeps_roster(t, recording, batch.drop_last());
    }
}

/// The tracking loop is launched at most once: after a first start, a second
/// one launches nothing.
pub proof fn lemma_start_once(r0: &Registry, r1: &Registry, r2: &Registry, first: bool, second: bool)
    requires
        start_step(r0, r1, first),
        start_step(r1, r2, second),
    ensures
        !second,
        r2.is_running,
        !(first && second),
{
}

/// Seeding a record and then reading the roster gives that record back
/// unchanged, as the only one at its address.
pub proof fn lemma_seed_then_snapshot(devs: Seq<DeviceRecord>, rec: DeviceRecord)
    requires
        unique_addresses(devs),
    ensures
        exists|i: int| 0 <= i < seed_one(devs, rec).len() && #[trigger] seed_one(devs, rec)[i] == rec,
        forall|i: int|
            0 <= i < seed_one(devs, rec).len() && (#[trigger] seed_one(devs, rec)[i]).address == rec.address
                ==> seed_one(devs, rec)[i] == rec,
{
    let s = seed_one(devs, rec);
    if has_address(devs, rec.address) {
        let k = choose|k: int| 0 <= k < devs.len() && (#[trigger] devs[k]).address == rec.address;
        assert(s[k] == rec);
    } else {
        assert(s[devs.len() as int] == rec);
        assert forall|i: int| 0 <= i < s.len() && (#[trigger] s[i]).address == rec.address implies s[i]
            == rec by {
            if i < devs.len() {
                assert(s[i] == devs[i]);
                assert(has_address(devs, rec.address));
            }
        }
    }
}

/// A recording ended and begun again starts over: it holds no rows, and its
/// record is just the header.
pub proof fn lemma_recording_restarts(r0: &Registry, r1: &Registry, r2: &Registry)
    requires
        recording_ended(r0, r1),
        recording_begun(r1, r2),
    ensures
        r2.recording,
        r2.log@.len() == 0,
        r2.devices@ == r0.devices@,
{
}

/// Of two usable samples of a mobile tag whose second is not newer than the
/// first, at most the first is recorded.
pub proof fn lemma_stale_sample_not_recorded(t: LoopState, s1: Sample, s2: Sample)
    requires
        s1.is_hedge,
        s1.q > 0,
        s2.time_ns <= s1.time_ns,
    ensures
        refreshed(t, true, seq![s1, s2]).rows == if s1.time_ns > t.watermark_ns {
            t.rows.push(row_of(s1))
        } else {
            t.rows
        },
{
    let b = seq![s1, s2];
    assert(b.drop_last() =~= seq![s1]);
    assert(seq![s1].drop_last() =~= Seq::<Sample>::empty());
    assert(refreshed(t, true, Seq::<Sample>::empty()) == t);
    let t1 = refresh_step(t, true, s1);
    assert(refreshed(t, true, seq![s1]) == t1);
    assert(t1.watermark_ns >= s2.time_ns);
    assert(refreshed(t, true, b) == refresh_step(t1, true, s2));
}

/// The loop state after the refreshes `batches`, in order.
pub open spec fn refreshed_all(t: LoopState, recording: bool, batches: Seq<Seq<Sample>>) -> LoopState
    decreases batches.len(),
{
    if batches.len() == 0 {
        t
    } else {
        refreshed(refreshed_all(t, recording, batches.drop_last()), recording, batches.last())
    }
}

/// Any number of refreshes never make, drop or reorder a record, nor change
/// its address or kind.
pub proof fn lemma_refreshes_keep_roster(t: LoopState, recording: bool, batches: Seq<Seq<Sample>>)
    ensures
        refreshed_all(t, recording, batches).devices.len() == t.devices.len(),
        forall|i: int|
            0 <= i < t.devices.len() ==> (#[trigger] refreshed_all(t, recording, batches).devices[i]).address
                == t.devices[i].address && refreshed_all(t, recording, batches).devices[i].is_hedge
                == t.devices[i].is_hedge,
    decreases batches.len(),
{
    if batches.len() > 0 {
        let mid = refreshed_all(t, recording, batches.drop_last());
        lemma_refreshes_keep_roster(t, recording, batches.drop_last());
        lemma_refresh_keeps_roster(mid, recording, batches.last());
    }
}

/// The watermark never moves back.
pub proof fn lemma_watermark_monotone(t: LoopState, recording: bool, batch: Seq<Sample>)
    ensures
        refreshed(t, recording, batch).watermark_ns >= t.watermark_ns,
    decreases batch.len(),
{
    if batch.len() > 0 {
        lemma_watermark_monotone(t, recording, batch.drop_last());
    }
}

/// While recording, once a batch holds a usable sample of a mobile tag, the
/// watermark is at least that sample's time.
pub proof fn lemma_watermark_passes_sample(t: LoopState, batch: Seq<Sample>, k: int)
    requires
        0 <= k < batch.len(),
        batch[k].is_hedge,
        batch[k].q > 0,
    ensures
        refreshed(t, true, batch).watermark_ns >= batch[k].time_ns,
    decreases batch.len(),
{
    if k < batch.len() - 1 {
        lemma_watermark_passes_sample(t, batch.drop_last(), k);
        lemma_watermark_monotone(refreshed(t, true, batch.drop_last()), true, seq![batch.last()]);
        assert(seq![batch.last()].drop_last() =~= Seq::<Sample>::empty());
    }
}

/// A batch whose samples are none of them newer than the watermark records
/// nothing.
pub proof fn lemma_no_newer_sample_no_row(t: LoopState, recording: bool, batch: Seq<Sample>)
    requires
        forall|i: int| 0 <= i < batch.len() ==> (#[trigger] batch[i]).time_ns <= t.watermark_ns,
    ensures
        refreshed(t, recording, batch).rows == t.rows,
        refreshed(t, recording, batch).watermark_ns == t.watermark_ns,
    decreases batch.len(),
{
    if batch.len() > 0 {
        lemma_no_newer_sample_no_row(t, recording, batch.drop_last());
        assert(batch.last() == batch[batch.len() - 1]);
    }
}

/// A usable sample of a mobile tag recorded in one refresh keeps any later
/// refresh whose samples are not newer than it from recording anything.
pub proof fn lemma_stale_batch_not_recorded(t: LoopState, first: Seq<Sample>, k: int, later: Seq<Sample>)
    requires
        0 <= k < first.len(),
        first[k].is_hedge,
        first[k].q > 0,
        forall|i: int| 0 <= i < later.len() ==> (#[trigger] later[i]).time_ns <= first[k].time_ns,
    ensures
        refreshed(refreshed(t, true, first), true, later).rows == refreshed(t, true, first).rows,
{
    lemma_watermark_passes_sample(t, first, k);
    lemma_no_newer_sample_no_row(refreshed(t, true, first), true, later);
}

/// The decimal digits of `n`, most significant first, without leading zeros.
pub open spec fn nat_text(n: nat) -> Seq<char>
    decreases n,
{
    if n < 10 {
        seq![digit_char(n)]
    } else {
        nat_text(n / 10).push(digit_char(n % 10))
    }
}

pub open spec fn digit_char(d: nat) -> char {
    ('0' as nat + d) as char
}

/// `n` in decimal, with a minus sign where it is negative.
pub open spec fn int_text(n: int) -> Seq<char> {
    if n < 0 {
        seq!['-'] + nat_text((-n) as nat)
    } else {
        nat_text(n as nat)
    }
}

/// A row of the recording as a line of text: `address,x,y,z,q,t`.
pub open spec fn csv_of(r: LogRow) -> Seq<char> {
    int_text(r.address as int) + seq![','] + int_text(r.x_mm as int) + seq![','] + int_text(
        r.y_mm as int,
    ) + seq![','] + int_text(r.z_mm as int) + seq![','] + int_text(r.q as int) + seq![',']
        + int_text(r.t_ms as int) + seq!['\n']
}

/// Appends the decimal digits of `n`.
fn push_digits(out: &mut String, n: u64)
    ensures
        final(out)@ == old(out)@ + nat_text(n as nat),
    decreases n,
{
    if n >= 10 {
        push_digits(out, n / 10);
    }
    let d = (n % 10) as usize;
    proof {
        reveal_strlit("0123456789");
    }
    let digit = "0123456789".substring_char(d, d + 1);
    proof {
        assert(digit@ =~= seq![digit_char(d as nat)]);
    }
    out.append(digit);
    proof {
        if n >= 10 {
            assert(nat_text(n as nat) == nat_text((n / 10) as nat).push(digit_char((n % 10) as nat)));
        }
    }
    assert(final(out)@ =~= old(out)@ + nat_text(n as nat));
}

/// Appends `n` in decimal.
fn push_int(out: &mut String, n: i64)
    ensures
        final(out)@ == old(out)@ + int_text(n as int),
{
    if n < 0 {
        out.append("-");
        proof {
            reveal_strlit("-");
        }
        let m: u64 = if n == i64::MIN { 9223372036854775808u64 } else { (-n) as u64 };
        push_digits(out, m);
        assert(final(out)@ =~= old(out)@ + int_text(n as int));
    } else {
        push_digits(out, n as u64);
    }
}

impl LogRow {
    /// This row as a line of the recording (see `csv_of`).
    pub fn csv_line(&self) -> (r: String)
        ensures
            r@ == csv_of(*self),
    {
        let mut out = String::new();
        proof {
            reveal_strlit(",");
            reveal_strlit("\n");
        }
        push_int(&mut out, self.address as i64);
        out.append(",");
        push_int(&mut out, self.x_mm as i64);
        out.append(",");
        push_int(&mut out, self.y_mm as i64);
        out.append(",");
        push_int(&mut out, self.z_mm as i64);
        out.append(",");
        push_int(&mut out, self.q as i64);
        out.append(",");
        if self.t_ms <= i64::MAX as u64 {
            push_int(&mut out, self.t_ms as i64);
        } else {
            push_digits(&mut out, self.t_ms);
        }
        out.append("\n");
        assert(out@ =~= csv_of(*self));
        out
    }
}

/// The lines of `rows`, in order.
pub open spec fn rows_text(rows: Seq<LogRow>) -> Seq<char>
    decreases rows.len(),
{
    if rows.len() == 0 {
        Seq::empty()
    } else {
        rows_text(rows.drop_last()) + csv_of(rows.last())
    }
}

/// The text of a recording that holds `rows`: the header, then one line per row.
pub open spec fn record_text(rows: Seq<LogRow>) -> Seq<char> {
    log_header() + rows_text(rows)
}

/// A recording just begun is the header alone; rows handed out later add
/// exactly their lines at its end.
pub proof fn lemma_record_text_grows(log: Seq<LogRow>, rows: Seq<LogRow>)
    ensures
        record_text(Seq::empty()) == log_header(),
        record_text(log + rows) == record_text(log) + rows_text(rows),
    decreases rows.len(),
{
    assert(log_header() + Seq::<char>::empty() =~= log_header());
    if rows.len() == 0 {
        assert(log + rows =~= log);
        assert(record_text(log) + Seq::<char>::empty() =~= record_text(log));
    } else {
        lemma_record_text_grows(log, rows.drop_last());
        assert((log + rows).drop_last() =~= log + rows.drop_last());
        assert((log + rows).last() == rows.last());
        let dl = rows.drop_last();
        assert(rows_text(log + rows) == rows_text(log + dl) + csv_of(rows.last()));
        assert(record_text(log + rows) =~= (log_header() + rows_text(log + dl)) + csv_of(rows.last()));
        assert(record_text(log + dl) == record_text(log) + rows_text(dl));
        assert(rows_text(rows) == rows_text(dl) + csv_of(rows.last()));
        assert(record_text(log + rows) =~= record_text(log) + rows_text(rows));
    }
}

/// The decimal text of a number is one or more digits.
pub proof fn lemma_nat_text_digits(n: nat)
    ensures
        nat_text(n).len() > 0,
        forall|i: int| 0 <= i < nat_text(n).len() ==> '0' <= #[trigger] nat_text(n)[i] <= '9',
    decreases n,
{
    if n >= 10 {
        lemma_nat_text_digits(n / 10);
        assert forall|i: int| 0 <= i < nat_text(n).len() implies '0' <= #[trigger] nat_text(n)[i]
            <= '9' by {
            if i < nat_text(n / 10).len() {
                assert(nat_text(n)[i] == nat_text(n / 10)[i]);
            }
        }
    }
}

} // verus!
