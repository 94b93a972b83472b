//! Device scheduling and memory-aware admission control.
//!
//! Impossible configurations are rejected before scheduling, and a trial whose declared
//! resources would exceed a device's remaining budget is refused. This is pure resource
//! accounting over [`ResourceSpec`], independent of any real hardware.

use vstd::prelude::*;
use crate::executor::{ResourceModel, ResourceSpec};
use crate::names::NameMap;
use crate::text::same_text;
#[allow(unused_imports)]
use crate::models;
#[allow(unused_imports)]
use crate::names;

verus! {

/// Why a trial could not be admitted to any device.
#[derive(Debug, Clone, Copy, PartialEq, Eq, Structural)]
pub enum AdmissionError {
    /// No single device has enough total capacity to ever satisfy the request.
    Impossible,
    /// Every device that could fit the request is currently too busy; retry once outstanding
    /// leases are released.
    NoCapacityAvailable,
}

impl AdmissionError {
    /// The error in words.
    pub fn message(&self) -> (r: &'static str)
        ensures
            r@ == match self {
                AdmissionError::Impossible => "no device can ever satisfy this resource request"@,
                AdmissionError::NoCapacityAvailable => {
                    "no device currently has capacity for this request"@
                },
            },
    {
        match self {
            AdmissionError::Impossible => "no device can ever satisfy this resource request",
            AdmissionError::NoCapacityAvailable => {
                "no device currently has capacity for this request"
            },
        }
    }
}

/// A device with a fixed total capacity.
#[derive(Debug)]
pub struct Device {
    /// Stable device identifier (e.g. "gpu:0").
    pub id: String,
    /// The device's total capacity.
    pub capacity: ResourceSpec,
}

impl Device {
    /// A device with the given id and capacity.
    pub fn new(id: &str, capacity: ResourceSpec) -> (d: Self)
        ensures
            d.id@ == id@,
            d.capacity == capacity,
    {
        Device { id: id.to_owned(), capacity }
    }
}

/// The amount of a named resource; what is not named is none.
pub open spec fn amount(m: Map<Seq<char>, u64>, name: Seq<char>) -> int {
    if m.contains_key(name) {
        m[name] as int
    } else {
        0
    }
}

/// The most of a fractional resource that may be taken of `capacity`: one billionth of
/// tolerance on top of it.
pub open spec fn limit(capacity: int) -> int {
    if capacity < u64::MAX {
        capacity + 1
    } else {
        capacity
    }
}

/// Whether `used` and `req` together stay within `capacity`.
pub open spec fn fits_beside(used: ResourceModel, req: ResourceModel, capacity: ResourceModel) -> bool {
    &&& used.cpus + req.cpus <= limit(capacity.cpus as int)
    &&& used.gpus + req.gpus <= limit(capacity.gpus as int)
    &&& used.memory_mb + req.memory_mb <= capacity.memory_mb
    &&& forall|name: Seq<char>| #[trigger]
        used.custom.contains_key(name) || req.custom.contains_key(name) ==> amount(
            used.custom,
            name,
        ) + amount(req.custom, name) <= limit(amount(capacity.custom, name))
}

/// Whether `req` alone stays within `capacity`.
pub open spec fn fits_alone(req: ResourceModel, capacity: ResourceModel) -> bool {
    fits_beside(no_resources(), req, capacity)
}

/// Nothing at all: where usage accounting starts.
pub open spec fn no_resources() -> ResourceModel {
    ResourceModel { cpus: 0, gpus: 0, memory_mb: 0, custom: Map::empty() }
}

/// The named amounts of two maps added up.
pub open spec fn added(a: Map<Seq<char>, u64>, b: Map<Seq<char>, u64>) -> Map<Seq<char>, u64> {
    Map::new(
        |name: Seq<char>| a.contains_key(name) || b.contains_key(name),
        |name: Seq<char>| (amount(a, name) + amount(b, name)) as u64,
    )
}

/// The named amounts of `b` taken off those of `a`, never below none.
pub open spec fn taken(a: Map<Seq<char>, u64>, b: Map<Seq<char>, u64>) -> Map<Seq<char>, u64> {
    Map::new(
        |name: Seq<char>| a.contains_key(name) || b.contains_key(name),
        |name: Seq<char>|
            if amount(a, name) >= amount(b, name) {
                (amount(a, name) - amount(b, name)) as u64
            } else {
                0
            },
    )
}

/// `a` and `b` together.
pub open spec fn sum_of(a: ResourceModel, b: ResourceModel) -> ResourceModel {
    ResourceModel {
        cpus: (a.cpus + b.cpus) as u64,
        gpus: (a.gpus + b.gpus) as u64,
        memory_mb: (a.memory_mb + b.memory_mb) as u64,
        custom: added(a.custom, b.custom),
    }
}

/// What is left of `a` without `b`.
pub open spec fn rest_of(a: ResourceModel, b: ResourceModel) -> ResourceModel {
    ResourceModel {
        cpus: less(a.cpus, b.cpus),
        gpus: less(a.gpus, b.gpus),
        memory_mb: less(a.memory_mb, b.memory_mb),
        custom: taken(a.custom, b.custom),
    }
}

/// `a - b`, never below zero.
pub open spec fn less(a: u64, b: u64) -> u64 {
    if a >= b {
        (a - b) as u64
    } else {
        0
    }
}

/// Whether two specs name the same amounts.
pub open spec fn same_amounts(a: ResourceModel, b: ResourceModel) -> bool {
    &&& a.cpus == b.cpus
    &&& a.gpus == b.gpus
    &&& a.memory_mb == b.memory_mb
    &&& forall|name: Seq<char>| #[trigger] amount(a.custom, name) == amount(b.custom, name)
}

/// Releasing what was admitted puts the amounts back as they were.
pub proof fn law_release_undoes_admission(
    used: ResourceModel,
    req: ResourceModel,
    capacity: ResourceModel,
)
    requires
        fits_beside(used, req, capacity),
    ensures
        same_amounts(rest_of(sum_of(used, req), req), used),
{
    let after = rest_of(sum_of(used, req), req);
    assert forall|name: Seq<char>| #[trigger] amount(after.custom, name) == amount(
        used.custom,
        name,
    ) by {
        if used.custom.contains_key(name) || req.custom.contains_key(name) {
        }
    }
}

fn amount_in(m: &NameMap<u64>, name: &str) -> (v: u64)
    ensures
        v == amount(m@, name@),
{
    match m.get(name) {
        Some(v) => *v,
        None => 0,
    }
}

/// Whether each of the `names` stays within capacity when the amounts of `a` and `b` are added.
fn custom_fits(keys: &NameMap<u64>, a: &NameMap<u64>, b: &NameMap<u64>, cap: &NameMap<u64>) -> (r: bool)
    ensures
        r == forall|name: Seq<char>| #[trigger]
            keys@.contains_key(name) ==> amount(a@, name) + amount(b@, name) <= limit(
                amount(cap@, name),
            ),
{
    let pairs = keys.iter();
    let mut i: usize = 0;
    while i < pairs.len()
        invariant
            i <= pairs@.len(),
            pairs@.len() == keys.pairs().len(),
            keys@ == names::entries_map(keys.pairs()),
            forall|k: int| 0 <= k < pairs@.len() ==> *(#[trigger] pairs@[k]).0 == keys.pairs()[k].0,
            forall|k: int|
                0 <= k < i ==> amount(a@, (#[trigger] keys.pairs()[k]).0@) + amount(
                    b@,
                    keys.pairs()[k].0@,
                ) <= limit(amount(cap@, keys.pairs()[k].0@)),
        decreases pairs@.len() - i,
    {
        let name = pairs[i].0.as_str();
        let used = amount_in(a, name);
        let wanted = amount_in(b, name);
        let top = amount_in(cap, name);
        let bound: u128 = if top < u64::MAX {
            top as u128 + 1
        } else {
            top as u128
        };
        proof {
            assert(name@ == keys.pairs()[i as int].0@);
        }
        if used as u128 + wanted as u128 > bound {
            proof {
                assert(keys@.contains_key(name@));
            }
            return false;
        }
        i += 1;
    }
    proof {
        assert forall|name: Seq<char>| #[trigger] keys@.contains_key(name) implies amount(a@, name)
            + amount(b@, name) <= limit(amount(cap@, name)) by {
            let k = choose|k: int|
                0 <= k < keys.pairs().len() && #[trigger] keys.pairs()[k].0@ == name;
            assert(keys.pairs()[k].0@ == name);
        }
    }
    true
}

fn within(sum: u128, capacity: u64) -> (r: bool)
    ensures
        r == (sum <= limit(capacity as int)),
{
    if capacity < u64::MAX {
        sum <= capacity as u128 + 1
    } else {
        sum <= capacity as u128
    }
}

fn fits(used: &ResourceSpec, req: &ResourceSpec, capacity: &ResourceSpec) -> (r: bool)
    ensures
        r == fits_beside(used@, req@, capacity@),
{
    let a = custom_fits(&used.custom, &used.custom, &req.custom, &capacity.custom);
    let b = custom_fits(&req.custom, &used.custom, &req.custom, &capacity.custom);
    proof {
        if a && b {
            assert forall|name: Seq<char>| #[trigger]
                used@.custom.contains_key(name) || req@.custom.contains_key(name) implies amount(
                used@.custom,
                name,
            ) + amount(req@.custom, name) <= limit(amount(capacity@.custom, name)) by {
                if used@.custom.contains_key(name) {
                } else {
                    assert(req@.custom.contains_key(name));
                }
            }
        }
        if !a {
            let name = choose|name: Seq<char>| #[trigger]
                used@.custom.contains_key(name) && amount(used@.custom, name) + amount(
                    req@.custom,
                    name,
                ) > limit(amount(capacity@.custom, name));
            assert(used@.custom.contains_key(name) || req@.custom.contains_key(name));
        }
        if !b {
            let name = choose|name: Seq<char>| #[trigger]
                req@.custom.contains_key(name) && amount(used@.custom, name) + amount(
                    req@.custom,
                    name,
                ) > limit(amount(capacity@.custom, name));
            assert(used@.custom.contains_key(name) || req@.custom.contains_key(name));
        }
    }
    within(used.cpus as u128 + req.cpus as u128, capacity.cpus) && within(
        used.gpus as u128 + req.gpus as u128,
        capacity.gpus,
    ) && used.memory_mb as u128 + req.memory_mb as u128 <= capacity.memory_mb as u128 && a && b
}

fn no_usage() -> (r: ResourceSpec)
    ensures
        r@ == no_resources(),
{
    ResourceSpec { cpus: 0, gpus: 0, memory_mb: 0, custom: NameMap::new() }
}

/// Adds the amounts of `b` to `a`, name by name.
fn add_custom(a: NameMap<u64>, b: &NameMap<u64>) -> (r: NameMap<u64>)
    requires
        forall|name: Seq<char>| #[trigger]
            b@.contains_key(name) ==> amount(a@, name) + amount(b@, name) <= u64::MAX,
    ensures
        r@ == added(a@, b@),
{
    let ghost start = a@;
    let mut out = a;
    let pairs = b.iter();
    let mut i: usize = 0;
    while i < pairs.len()
        invariant
            i <= pairs@.len(),
            pairs@.len() == b.pairs().len(),
            b@ == names::entries_map(b.pairs()),
            names::sorted_pairs(b.pairs()),
            forall|k: int|
                0 <= k < pairs@.len() ==> *(#[trigger] pairs@[k]).0 == b.pairs()[k].0 && *pairs@[k].1
                    == b.pairs()[k].1,
            forall|name: Seq<char>| #[trigger]
                b@.contains_key(name) ==> amount(start, name) + amount(b@, name) <= u64::MAX,
            out@ == added(start, names::entries_map(b.pairs().take(i as int))),
        decreases pairs@.len() - i,
    {
        let name = pairs[i].0.as_str();
        let v = *pairs[i].1;
        let ghost before = names::entries_map(b.pairs().take(i as int));
        proof {
            names::prefix_grows(b, i as int);
            names::pairs_lookup(b, i as int);
            assert(amount(out@, name@) == amount(start, name@));
        }
        let now = amount_in(&out, name) + v;
        out.insert(name, now);
        proof {
            let after = names::entries_map(b.pairs().take(i + 1));
            assert(after == before.insert(name@, v));
            assert(out@ =~= added(start, after));
        }
        i += 1;
    }
    proof {
        assert(b.pairs().take(i as int) =~= b.pairs());
    }
    out
}

/// Takes the amounts of `b` off `a`, name by name, never below none.
fn take_custom(a: NameMap<u64>, b: &NameMap<u64>) -> (r: NameMap<u64>)
    ensures
        r@ == taken(a@, b@),
{
    let ghost start = a@;
    let mut out = a;
    let pairs = b.iter();
    let mut i: usize = 0;
    while i < pairs.len()
        invariant
            i <= pairs@.len(),
            pairs@.len() == b.pairs().len(),
            b@ == names::entries_map(b.pairs()),
            names::sorted_pairs(b.pairs()),
            forall|k: int|
                0 <= k < pairs@.len() ==> *(#[trigger] pairs@[k]).0 == b.pairs()[k].0 && *pairs@[k].1
                    == b.pairs()[k].1,
            out@ == taken(start, names::entries_map(b.pairs().take(i as int))),
        decreases pairs@.len() - i,
    {
        let name = pairs[i].0.as_str();
        let v = *pairs[i].1;
        let ghost before = names::entries_map(b.pairs().take(i as int));
        proof {
            names::prefix_grows(b, i as int);
            names::pairs_lookup(b, i as int);
            assert(amount(out@, name@) == amount(start, name@));
        }
        let now = amount_in(&out, name).saturating_sub(v);
        out.insert(name, now);
        proof {
            let after = names::entries_map(b.pairs().take(i + 1));
            assert(after == before.insert(name@, v));
            assert(out@ =~= taken(start, after));
        }
        i += 1;
    }
    proof {
        assert(b.pairs().take(i as int) =~= b.pairs());
    }
    out
}

/// Per-device state: total capacity and currently reserved usage.
#[derive(Debug)]
struct DeviceState {
    id: String,
    capacity: ResourceSpec,
    used: ResourceSpec,
}

/// What the scheduler knows of a device.
pub struct DeviceModel {
    /// Device identifier.
    pub id: Seq<char>,
    /// Total capacity.
    pub capacity: ResourceModel,
    /// Currently reserved usage.
    pub used: ResourceModel,
}

impl View for DeviceState {
    type V = DeviceModel;

    closed spec fn view(&self) -> DeviceModel {
        DeviceModel { id: self.id@, capacity: self.capacity@, used: self.used@ }
    }
}

impl DeviceModel {
    /// Whether `req` fits in the remaining budget.
    pub open spec fn fits(self, req: ResourceModel) -> bool {
        fits_beside(self.used, req, self.capacity)
    }

    /// Whether `req` could ever fit in the total capacity.
    pub open spec fn could_ever_fit(self, req: ResourceModel) -> bool {
        fits_alone(req, self.capacity)
    }

    /// The CPU share that is not reserved.
    pub open spec fn headroom(self) -> int {
        self.capacity.cpus - self.used.cpus
    }
}

/// Whether device `i` is the best fit for `req`: among the devices that fit it, the one with
/// the least CPU headroom, the first of those.
pub open spec fn best_fit(devices: Seq<DeviceModel>, req: ResourceModel, i: int) -> bool {
    &&& 0 <= i < devices.len()
    &&& devices[i].fits(req)
    &&& forall|j: int|
        0 <= j < devices.len() && (#[trigger] devices[j]).fits(req) ==> devices[i].headroom()
            < devices[j].headroom() || (devices[i].headroom() == devices[j].headroom() && i <= j)
}

/// A reservation of capacity on a specific device.
#[derive(Debug)]
pub struct DeviceLease {
    /// The device this lease is bound to.
    device_id: String,
    /// The reserved resources.
    reserved: ResourceSpec,
}

impl DeviceLease {
    /// The device this lease is bound to.
    pub closed spec fn device(self) -> Seq<char> {
        self.device_id@
    }

    /// The reserved resources.
    pub closed spec fn holds(self) -> ResourceModel {
        self.reserved@
    }

    /// The device this lease is bound to.
    pub fn device_id(&self) -> (r: &str)
        ensures
            r@ == self.device(),
    {
        self.device_id.as_str()
    }

    /// The reserved resources.
    pub fn reserved(&self) -> (r: &ResourceSpec)
        ensures
            r@ == self.holds(),
    {
        &self.reserved
    }
}

/// Hands out device leases with memory-aware admission control.
#[derive(Debug)]
pub struct DeviceScheduler {
    states: Vec<DeviceState>,
}

impl View for DeviceScheduler {
    type V = Seq<DeviceModel>;

    closed spec fn view(&self) -> Seq<DeviceModel> {
        models::of(self.states@)
    }
}

/// Whether nothing is reserved beyond what a device has.
pub open spec fn never_overcommitted(devices: Seq<DeviceModel>) -> bool {
    forall|i: int|
        0 <= i < devices.len() ==> fits_alone((#[trigger] devices[i]).used, devices[i].capacity)
}

/// The devices of a scheduler with nothing reserved.
pub open spec fn fresh(devices: Seq<Device>) -> Seq<DeviceModel> {
    devices.map_values(
        |d: Device| DeviceModel { id: d.id@, capacity: d.capacity@, used: no_resources() },
    )
}

impl DeviceScheduler {
    /// A scheduler over the given devices.
    pub fn new(devices: Vec<Device>) -> (s: Self)
        ensures
            s@ == fresh(devices@),
            never_overcommitted(s@),
    {
        let ghost all = devices@;
        let mut rest = devices;
        let mut states: Vec<DeviceState> = Vec::new();
        proof {
            assert(all.skip(0) =~= all);
        }
        while rest.len() > 0
            invariant
                states@.len() <= all.len(),
                rest@ == all.skip(states@.len() as int),
                forall|k: int|
                    0 <= k < states@.len() ==> (#[trigger] states@[k])@ == (DeviceModel {
                        id: all[k].id@,
                        capacity: all[k].capacity@,
                        used: no_resources(),
                    }),
            decreases rest@.len(),
        {
            let d = rest.remove(0);
            proof {
                let n = states@.len() as int;
                assert(d == all[n]);
                assert(all.skip(n).remove(0) =~= all.skip(n + 1));
            }
            states.push(DeviceState { id: d.id, capacity: d.capacity, used: no_usage() });
        }
        let s = DeviceScheduler { states };
        proof {
            assert(s@ =~= fresh(all));
        }
        s
    }

    /// Whether any device could ever satisfy `req` (ignoring current load).
    pub fn is_feasible(&self, req: &ResourceSpec) -> (r: bool)
        ensures
            r == exists|i: int| 0 <= i < self@.len() && (#[trigger] self@[i]).could_ever_fit(req@),
    {
        let none = no_usage();
        let mut i: usize = 0;
        while i < self.states.len()
            invariant
                i <= self@.len(),
                self@.len() == self.states@.len(),
                none@ == no_resources(),
                forall|k: int| 0 <= k < i ==> !(#[trigger] self@[k]).could_ever_fit(req@),
            decreases self.states@.len() - i,
        {
            proof {
                assert(self@[i as int] == self.states@[i as int]@);
            }
            if fits(&none, req, &self.states[i].capacity) {
                return true;
            }
            i += 1;
        }
        false
    }

    /// Try to reserve capacity for `req`. Distinguishes an impossible request from a transient
    /// lack of capacity. Best-fit: among devices that currently fit the request, the one with
    /// the least remaining CPU is chosen, packing trials rather than fragmenting.
    pub fn try_admit(&mut self, req: &ResourceSpec) -> (r: Result<DeviceLease, AdmissionError>)
        ensures
            match r {
                Err(AdmissionError::Impossible) => final(self)@ == old(self)@ && !exists|i: int|
                    0 <= i < old(self)@.len() && (#[trigger] old(self)@[i]).could_ever_fit(req@),
                Err(AdmissionError::NoCapacityAvailable) => final(self)@ == old(self)@ && (exists|
                    i: int,
                |
                    0 <= i < old(self)@.len() && (#[trigger] old(self)@[i]).could_ever_fit(req@))
                    && forall|i: int|
                    0 <= i < old(self)@.len() ==> !(#[trigger] old(self)@[i]).fits(req@),
                Ok(lease) => lease.holds() == req@ && exists|i: int| #[trigger]
                    best_fit(old(self)@, req@, i) && lease.device() == old(self)@[i].id
                        && final(self)@ == old(self)@.update(
                        i,
                        (DeviceModel { used: sum_of(old(self)@[i].used, req@), ..old(self)@[i] }),
                    ),
            },
    {
        if !self.is_feasible(req) {
            return Err(AdmissionError::Impossible);
        }
        let mut choice: Option<usize> = None;
        let mut i: usize = 0;
        while i < self.states.len()
            invariant
                i <= self@.len(),
                *self == *old(self),
                self@.len() == self.states@.len(),
                match choice {
                    None => forall|k: int| 0 <= k < i ==> !(#[trigger] self@[k]).fits(req@),
                    Some(c) => c < i && self@[c as int].fits(req@) && forall|j: int|
                        0 <= j < i && (#[trigger] self@[j]).fits(req@) ==> self@[c as int].headroom()
                            < self@[j].headroom() || (self@[c as int].headroom()
                            == self@[j].headroom() && c <= j),
                },
            decreases self.states@.len() - i,
        {
            proof {
                assert(self@[i as int] == self.states@[i as int]@);
            }
            if fits(&self.states[i].used, req, &self.states[i].capacity) {
                let here: i128 = self.states[i].capacity.cpus as i128
                    - self.states[i].used.cpus as i128;
                match choice {
                    None => {
                        choice = Some(i);
                    },
                    Some(c) => {
                        proof {
                            assert(self@[c as int] == self.states@[c as int]@);
                        }
                        let best: i128 = self.states[c].capacity.cpus as i128
                            - self.states[c].used.cpus as i128;
                        if here < best {
                            choice = Some(i);
                        }
                    },
                }
            }
            i += 1;
        }
        match choice {
            None => Err(AdmissionError::NoCapacityAvailable),
            Some(c) => {
                proof {
                    assert(self@[c as int] == self.states@[c as int]@);
                    assert(best_fit(self@, req@, c as int));
                }
                let ghost before = self.states@[c as int]@;
                let state = &self.states[c];
                let custom = state.used.custom.clone();
                proof {
                    assert(custom.pairs() =~= state.used.custom.pairs());
                    assert forall|name: Seq<char>| #[trigger]
                        req@.custom.contains_key(name) implies amount(custom@, name) + amount(
                        req@.custom,
                        name,
                    ) <= u64::MAX by {
                        assert(before.used.custom.contains_key(name)
                            || req@.custom.contains_key(name));
                    }
                }
                let used = ResourceSpec {
                    cpus: state.used.cpus + req.cpus,
                    gpus: state.used.gpus + req.gpus,
                    memory_mb: state.used.memory_mb + req.memory_mb,
                    custom: add_custom(custom, &req.custom),
                };
                let id = state.id.clone();
                self.states[c].used = used;
                proof {
                    assert(self@ =~= old(self)@.update(
                        c as int,
                        (DeviceModel { used: sum_of(before.used, req@), ..before }),
                    ));
                }
                Ok(DeviceLease { device_id: id, reserved: req.clone() })
            },
        }
    }

    /// The position of the first device called `id`.
    fn find(&self, id: &str) -> (r: Option<usize>)
        ensures
            match r {
                Some(i) => i < self@.len() && self@[i as int].id == id@ && forall|k: int|
                    0 <= k < i ==> (#[trigger] self@[k]).id != id@,
                None => forall|k: int| 0 <= k < self@.len() ==> (#[trigger] self@[k]).id != id@,
            },
    {
        let mut i: usize = 0;
        while i < self.states.len()
            invariant
                i <= self@.len(),
                self@.len() == self.states@.len(),
                forall|k: int| 0 <= k < i ==> (#[trigger] self@[k]).id != id@,
            decreases self.states@.len() - i,
        {
            proof {
                assert(self@[i as int] == self.states@[i as int]@);
            }
            if same_text(self.states[i].id.as_str(), id) {
                return Some(i);
            }
            i += 1;
        }
        None
    }

    /// Give the resources of a lease back to its device.
    pub fn release(&mut self, lease: DeviceLease)
        ensures
            (exists|i: int| #[trigger] is_named(old(self)@, lease.device(), i)) ==> exists|i: int|
                #[trigger] is_named(old(self)@, lease.device(), i) && final(self)@ == old(
                    self,
                )@.update(
                    i,
                    (DeviceModel {
                        used: rest_of(old(self)@[i].used, lease.holds()),
                        ..old(self)@[i]
                    }),
                ),
            (forall|k: int|
                0 <= k < old(self)@.len() ==> (#[trigger] old(self)@[k]).id != lease.device())
                ==> final(self)@ == old(self)@,
    {
        match self.find(lease.device_id.as_str()) {
            None => {},
            Some(i) => {
                proof {
                    assert(is_named(self@, lease.device(), i as int));
                    assert(self@[i as int] == self.states@[i as int]@);
                }
                let ghost before = self.states@[i as int]@;
                let state = &self.states[i];
                let custom = state.used.custom.clone();
                proof {
                    assert(custom.pairs() =~= state.used.custom.pairs());
                }
                let used = ResourceSpec {
                    cpus: state.used.cpus.saturating_sub(lease.reserved.cpus),
                    gpus: state.used.gpus.saturating_sub(lease.reserved.gpus),
                    memory_mb: state.used.memory_mb.saturating_sub(lease.reserved.memory_mb),
                    custom: take_custom(custom, &lease.reserved.custom),
                };
                self.states[i].used = used;
                proof {
                    assert(self@ =~= old(self)@.update(
                        i as int,
                        (DeviceModel { used: rest_of(before.used, lease.holds()), ..before }),
                    ));
                }
            },
        }
    }

    /// Currently reserved usage on a device by id.
    pub fn used(&self, device_id: &str) -> (r: Option<&ResourceSpec>)
        ensures
            match r {
                Some(u) => exists|i: int| #[trigger]
                    is_named(self@, device_id@, i) && u@ == self@[i].used,
                None => forall|k: int|
                    0 <= k < self@.len() ==> (#[trigger] self@[k]).id != device_id@,
            },
    {
        match self.find(device_id) {
            Some(i) => {
                proof {
                    assert(is_named(self@, device_id@, i as int));
                    assert(self@[i as int] == self.states@[i as int]@);
                }
                Some(&self.states[i].used)
            },
            None => None,
        }
    }
}

/// Device `i` is the first one called `id`.
pub open spec fn is_named(devices: Seq<DeviceModel>, id: Seq<char>, i: int) -> bool {
    &&& 0 <= i < devices.len()
    &&& devices[i].id == id
    &&& forall|k: int| 0 <= k < i ==> (#[trigger] devices[k]).id != id
}

/// Admission never reserves more than a device has.
pub proof fn law_admission_never_overcommits(
    devices: Seq<DeviceModel>,
    req: ResourceModel,
    i: int,
)
    requires
        never_overcommitted(devices),
        best_fit(devices, req, i),
    ensures
        never_overcommitted(
            devices.update(
                i,
                (DeviceModel { used: sum_of(devices[i].used, req), ..devices[i] }),
            ),
        ),
{
    let d = devices[i];
    let used = sum_of(d.used, req);
    assert forall|name: Seq<char>| #[trigger]
        no_resources().custom.contains_key(name) || used.custom.contains_key(name) implies amount(
        no_resources().custom,
        name,
    ) + amount(used.custom, name) <= limit(amount(d.capacity.custom, name)) by {
        assert(d.used.custom.contains_key(name) || req.custom.contains_key(name));
    }
    assert(fits_alone(used, d.capacity));
    let after = devices.update(i, (DeviceModel { used, ..d }));
    assert forall|k: int| 0 <= k < after.len() implies fits_alone(
        (#[trigger] after[k]).used,
        after[k].capacity,
    ) by {
        if k != i {
            assert(after[k] == devices[k]);
        }
    }
}

/// Releasing never leaves a device overcommitted.
pub proof fn law_release_never_overcommits(
    devices: Seq<DeviceModel>,
    held: ResourceModel,
    i: int,
)
    requires
        never_overcommitted(devices),
        0 <= i < devices.len(),
    ensures
        never_overcommitted(
            devices.update(
                i,
                (DeviceModel { used: rest_of(devices[i].used, held), ..devices[i] }),
            ),
        ),
{
    let d = devices[i];
    let used = rest_of(d.used, held);
    assert(fits_alone(d.used, d.capacity));
    assert forall|name: Seq<char>| #[trigger]
        no_resources().custom.contains_key(name) || used.custom.contains_key(name) implies amount(
        no_resources().custom,
        name,
    ) + amount(used.custom, name) <= limit(amount(d.capacity.custom, name)) by {
        if d.used.custom.contains_key(name) {
            assert(no_resources().custom.contains_key(name) || d.used.custom.contains_key(name));
        }
    }
    let after = devices.update(i, (DeviceModel { used, ..d }));
    assert forall|k: int| 0 <= k < after.len() implies fits_alone(
        (#[trigger] after[k]).used,
        after[k].capacity,
    ) by {
        if k != i {
            assert(after[k] == devices[k]);
        }
    }
}

/// A device takes a request where what is reserved and what is asked for stay within what it has,
/// up to a billionth of a share.
pub proof fn law_devices_take_what_they_have_room_for(d: DeviceModel, req: ResourceModel)
    requires
        d.capacity.cpus < u64::MAX,
        d.capacity.gpus < u64::MAX,
        forall|name: Seq<char>| #[trigger]
            d.capacity.custom.contains_key(name) ==> d.capacity.custom[name] < u64::MAX,
    ensures
        d.fits(req) <==> d.used.cpus + req.cpus <= d.capacity.cpus + 1 && d.used.gpus + req.gpus
            <= d.capacity.gpus + 1 && d.used.memory_mb + req.memory_mb <= d.capacity.memory_mb && (
        forall|name: Seq<char>| #[trigger]
            d.used.custom.contains_key(name) || req.custom.contains_key(name) ==> amount(
                d.used.custom,
                name,
            ) + amount(req.custom, name) <= amount(d.capacity.custom, name) + 1),
{
    assert forall|name: Seq<char>| #[trigger] limit(amount(d.capacity.custom, name)) == amount(
        d.capacity.custom,
        name,
    ) + 1 by {
        assert(d.capacity.custom.contains_key(name) ==> d.capacity.custom[name] < u64::MAX);
    }
}

/// A request goes to the fullest device that takes it: no device that would take it has less
/// processing power left.
pub proof fn law_requests_go_to_the_fullest_device(
    devices: Seq<DeviceModel>,
    req: ResourceModel,
    i: int,
    j: int,
)
    requires
        best_fit(devices, req, i),
        0 <= j < devices.len(),
        devices[j].fits(req),
    ensures
        devices[i].fits(req),
        devices[i].capacity.cpus - devices[i].used.cpus <= devices[j].capacity.cpus
            - devices[j].used.cpus,
{
}

/// What is admitted is added to what is reserved, amount by amount.
pub proof fn law_admission_reserves_what_is_asked_for(
    used: ResourceModel,
    req: ResourceModel,
    capacity: ResourceModel,
    name: Seq<char>,
)
    requires
        fits_beside(used, req, capacity),
    ensures
        sum_of(used, req).cpus == used.cpus + req.cpus,
        sum_of(used, req).gpus == used.gpus + req.gpus,
        sum_of(used, req).memory_mb == used.memory_mb + req.memory_mb,
        amount(sum_of(used, req).custom, name) == amount(used.custom, name) + amount(
            req.custom,
            name,
        ),
{
    if used.custom.contains_key(name) || req.custom.contains_key(name) {
        assert(amount(used.custom, name) + amount(req.custom, name) <= limit(
            amount(capacity.custom, name),
        ));
    }
}

} // verus!
