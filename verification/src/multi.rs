//! One model across several devices, by routing each weight to the device its layer was placed
//! on.
//!
//! A weight knows which device it belongs to, so the routing is a lookup. A batch is grouped by
//! device, so that each still sees its share as one batch, and the results go back to the places
//! of the operations they are of. A host layer's projection that is wide enough is sent to a card
//! instead. Running the operations is the caller's.

use vstd::prelude::*;
use crate::text;

verus! {

/// Where the streamed projection overtakes the host's own.
pub const HOST_STREAM_TOKENS_DEFAULT: usize = 32;

/// The narrowest batch at which a host layer's projection is streamed to a card: the number a
/// setting spells, or the default; nought keeps every host layer on the host.
pub fn host_stream_min_tokens(setting: Option<&str>) -> (min: usize)
    ensures
        min == match setting {
            Some(s) => match text::number_spec(text::trim_spec(s@)) {
                Some(n) => if n <= usize::MAX { n as usize } else { HOST_STREAM_TOKENS_DEFAULT },
                None => HOST_STREAM_TOKENS_DEFAULT,
            },
            None => HOST_STREAM_TOKENS_DEFAULT,
        },
{
    match setting {
        Some(s) => {
            let trimmed = text::trim(s);
            match text::parse_usize(trimmed.as_str()) {
                Some(n) => n,
                None => HOST_STREAM_TOKENS_DEFAULT,
            }
        },
        None => HOST_STREAM_TOKENS_DEFAULT,
    }
}

/// A device of a set, as far as routing looks at it.
#[derive(Debug, Clone, PartialEq, Eq)]
pub struct Device {
    /// Whether it is a card, with a streaming region and fused chains.
    pub card: bool,
    /// The tensor types it has kernels for.
    pub types: Vec<u32>,
}

impl Device {
    pub open spec fn supports(&self, ggml_type: u32) -> bool {
        self.types@.contains(ggml_type)
    }

    pub fn supports_type(&self, ggml_type: u32) -> (yes: bool)
        ensures
            yes == self.supports(ggml_type),
    {
        let mut i: usize = 0;
        while i < self.types.len()
            invariant
                i <= self.types@.len(),
                forall|k: int| 0 <= k < i ==> #[trigger] self.types@[k] != ggml_type,
            decreases self.types.len() - i,
        {
            if self.types[i] == ggml_type {
                return true;
            }
            i = i + 1;
        }
        false
    }

    /// The device as a card, where it is one.
    pub fn as_wgpu(&self) -> (card: Option<&Device>)
        ensures
            card is Some <==> self.card,
            card matches Some(d) ==> *d == *self,
    {
        if self.card { Some(self) } else { None }
    }

    /// The card a layer's fused work runs on: a device on its own answers the same whatever
    /// layer asks.
    pub fn as_wgpu_on(&self, _device: usize) -> (card: Option<&Device>)
        ensures
            card is Some <==> self.card,
            card matches Some(d) ==> *d == *self,
    {
        self.as_wgpu()
    }
}

/// A multiplication, as far as routing looks at it: how wide it is, and the device and type of
/// its weights.
#[derive(Debug, Clone, PartialEq, Eq)]
pub struct Op {
    pub n_tokens: usize,
    pub device: usize,
    pub ggml_type: u32,
}

/// Where an operation is sent.
#[derive(Debug, Clone, Copy, PartialEq, Eq, Structural)]
pub enum Route {
    /// The device of this index.
    Device(usize),
    /// The streaming region of the card of this index.
    Stream(usize),
}

/// Operations that go to one place as one batch, by their places in the caller's list.
#[derive(Debug, Clone, PartialEq, Eq)]
pub struct Group {
    pub route: Route,
    pub ops: Vec<usize>,
}

/// The devices of a split model, in the order its plan indexes them.
#[derive(Debug)]
pub struct MultiDeviceBackend {
    devices: Vec<Device>,
}

impl MultiDeviceBackend {
    pub closed spec fn devices(&self) -> Seq<Device> {
        self.devices@
    }

    /// A split has more than one device.
    pub open spec fn sound(&self) -> bool {
        self.devices().len() > 1
    }

    /// The device that runs a weight tagged with `device`: that one, or the last where the tag
    /// is outside the set.
    pub open spec fn index_spec(&self, device: int) -> int {
        if device < self.devices().len() { device } else { self.devices().len() - 1 }
    }

    /// The first card of the set, at or after `from`.
    pub open spec fn card_from(&self, from: int) -> Option<int>
        decreases self.devices().len() - from,
    {
        if from < 0 || from >= self.devices().len() {
            None
        } else if self.devices()[from].card {
            Some(from)
        } else {
            self.card_from(from + 1)
        }
    }

    /// Whether an operation is a host layer's projection wide enough to stream: never for a
    /// weight that already lives on a card, and never for a type the streaming card has no
    /// kernel for.
    pub open spec fn streams_spec(&self, op: Op, min: usize) -> bool {
        &&& min > 0
        &&& op.n_tokens >= min
        &&& !self.devices()[self.index_spec(op.device as int)].card
        &&& self.card_from(0) matches Some(card) && self.devices()[card].supports(op.ggml_type)
    }

    /// A set of more than one device: a split over one would give up the fused paths for
    /// nothing.
    pub fn new(devices: Vec<Device>) -> (set: MultiDeviceBackend)
        requires
            devices@.len() > 1,
        ensures
            set.devices() == devices@,
            set.sound(),
    {
        MultiDeviceBackend { devices }
    }

    /// The device for a weight, clamped to the set: the right result on the wrong device rather
    /// than a panic in the middle of a generation.
    pub fn backend_for(&self, device: usize) -> (index: usize)
        requires
            self.sound(),
        ensures
            index == self.index_spec(device as int),
            index < self.devices().len(),
    {
        if device < self.devices.len() { device } else { self.devices.len() - 1 }
    }

    /// The card a host layer's wide projection streams to: the first of the set.
    pub fn streamer(&self) -> (card: Option<usize>)
        ensures
            text::place(card) == self.card_from(0),
            card matches Some(i) ==> i < self.devices().len() && self.devices()[i as int].card,
    {
        let mut i: usize = 0;
        while i < self.devices.len()
            invariant
                i <= self.devices@.len(),
                self.card_from(0) == self.card_from(i as int),
            decreases self.devices.len() - i,
        {
            if self.devices[i].card {
                return Some(i);
            }
            i = i + 1;
        }
        None
    }

    /// Whether `op` is a host layer's projection wide enough to stream.
    pub fn streams(&self, op: &Op, min: usize) -> (yes: bool)
        requires
            self.sound(),
        ensures
            yes == self.streams_spec(*op, min),
    {
        if min == 0 || op.n_tokens < min || self.devices[self.backend_for(op.device)].card {
            return false;
        }
        match self.streamer() {
            Some(card) => self.devices[card].supports_type(op.ggml_type),
            None => false,
        }
    }

    /// Where a single multiplication goes.
    pub fn route(&self, op: &Op, min: usize) -> (route: Route)
        requires
            self.sound(),
        ensures
            route == if self.streams_spec(*op, min) {
                Route::Stream(self.card_from(0)->0 as usize)
            } else {
                Route::Device(self.index_spec(op.device as int) as usize)
            },
    {
        if self.streams(op, min) {
            if let Some(card) = self.streamer() {
                return Route::Stream(card);
            }
        }
        Route::Device(self.backend_for(op.device))
    }

    /// Never a card: what spans layers must not see a model split across devices.
    pub fn as_wgpu(&self) -> (card: Option<&Device>)
        ensures
            card is None,
    {
        None
    }

    /// The card holding a layer, so that its fused chain runs where its weights are; nothing
    /// where fusion is switched off for split models.
    pub fn as_wgpu_on(&self, device: usize, no_split_fusion: bool) -> (card: Option<&Device>)
        requires
            self.sound(),
        ensures
            ({
                let own = self.devices()[self.index_spec(device as int)];
                &&& card is Some <==> !no_split_fusion && own.card
                &&& card matches Some(d) ==> *d == own
            }),
    {
        if no_split_fusion {
            return None;
        }
        self.devices[self.backend_for(device)].as_wgpu()
    }

    /// A type is supported only if every device has a kernel for it: the plan can put any layer
    /// on any device.
    pub fn supports_type(&self, ggml_type: u32) -> (yes: bool)
        ensures
            yes == forall|i: int|
                0 <= i < self.devices().len() ==> (#[trigger] self.devices()[i]).supports(
                    ggml_type,
                ),
    {
        let mut i: usize = 0;
        while i < self.devices.len()
            invariant
                i <= self.devices@.len(),
                forall|k: int| 0 <= k < i ==> (#[trigger] self.devices()[k]).supports(ggml_type),
            decreases self.devices.len() - i,
        {
            if !self.devices[i].supports_type(ggml_type) {
                assert(!self.devices()[i as int].supports(ggml_type));
                return false;
            }
            i = i + 1;
        }
        true
    }
}

/// A group by the values it holds.
pub struct Share {
    pub route: Route,
    pub ops: Seq<usize>,
}

/// Groups by the values they hold.
pub open spec fn shares(groups: Seq<Group>) -> Seq<Share> {
    groups.map_values(|g: Group| Share { route: g.route, ops: g.ops@ })
}

impl MultiDeviceBackend {
    /// Where each operation of a batch goes; without `stream` always its own device.
    pub open spec fn route_spec(&self, op: Op, stream: bool, min: usize) -> Route {
        if stream && self.streams_spec(op, min) {
            Route::Stream(self.card_from(0)->0 as usize)
        } else {
            Route::Device(self.index_spec(op.device as int) as usize)
        }
    }

    /// The places, among the first `n` operations, of those that go one way, in order.
    pub open spec fn places(&self, ops: Seq<Op>, stream: bool, min: usize, route: Route, n: int) -> Seq<
        usize,
    >
        decreases n,
    {
        if n <= 0 {
            Seq::empty()
        } else {
            let rest = self.places(ops, stream, min, route, n - 1);
            if self.route_spec(ops[n - 1], stream, min) == route {
                rest.push((n - 1) as usize)
            } else {
                rest
            }
        }
    }

    /// A share added to a plan, where there is anything in it.
    pub open spec fn with_share(
        &self,
        plan: Seq<Share>,
        ops: Seq<Op>,
        stream: bool,
        min: usize,
        route: Route,
    ) -> Seq<Share> {
        let mine = self.places(ops, stream, min, route, ops.len() as int);
        if mine.len() == 0 { plan } else { plan.push(Share { route, ops: mine }) }
    }

    /// The shares of the first `d` devices, in their order.
    pub open spec fn device_shares(&self, ops: Seq<Op>, stream: bool, min: usize, d: int) -> Seq<
        Share,
    >
        decreases d,
    {
        if d <= 0 {
            Seq::empty()
        } else {
            self.with_share(
                self.device_shares(ops, stream, min, d - 1),
                ops,
                stream,
                min,
                Route::Device((d - 1) as usize),
            )
        }
    }

    /// How a batch is grouped: each device's share in turn, then what is streamed.
    pub open spec fn batch_spec(&self, ops: Seq<Op>, stream: bool, min: usize) -> Seq<Share> {
        let own = self.device_shares(ops, stream, min, self.devices().len() as int);
        match self.card_from(0) {
            Some(card) => self.with_share(own, ops, stream, min, Route::Stream(card as usize)),
            None => own,
        }
    }

    fn same_route(a: Route, b: Route) -> (yes: bool)
        ensures
            yes == (a == b),
    {
        match (a, b) {
            (Route::Device(x), Route::Device(y)) => x == y,
            (Route::Stream(x), Route::Stream(y)) => x == y,
            _ => false,
        }
    }

    fn share(&self, ops: &[Op], stream: bool, min: usize, route: Route) -> (mine: Vec<usize>)
        requires
            self.sound(),
        ensures
            mine@ == self.places(ops@, stream, min, route, ops@.len() as int),
    {
        let mut mine: Vec<usize> = Vec::new();
        let mut i: usize = 0;
        while i < ops.len()
            invariant
                i <= ops@.len(),
                self.sound(),
                mine@ == self.places(ops@, stream, min, route, i as int),
            decreases ops.len() - i,
        {
            let way = if stream {
                self.route(&ops[i], min)
            } else {
                Route::Device(self.backend_for(ops[i].device))
            };
            if Self::same_route(way, route) {
                mine.push(i);
            }
            i = i + 1;
        }
        mine
    }

    /// Groups a batch by device, so each device still sees its share as one batch. With
    /// `stream`, a host layer's operations wide enough form one more group for the card.
    pub fn batch_by_device(&self, ops: &[Op], stream: bool, min: usize) -> (groups: Vec<Group>)
        requires
            self.sound(),
        ensures
            shares(groups@) == self.batch_spec(ops@, stream, min),
    {
        let mut groups: Vec<Group> = Vec::new();
        let mut d: usize = 0;
        assert(shares(groups@) =~= self.device_shares(ops@, stream, min, 0));
        while d < self.devices.len()
            invariant
                d <= self.devices@.len(),
                self.sound(),
                shares(groups@) == self.device_shares(ops@, stream, min, d as int),
            decreases self.devices.len() - d,
        {
            let mine = self.share(ops, stream, min, Route::Device(d));
            if mine.len() > 0 {
                let ghost before = groups@;
                let ghost added = Share { route: Route::Device(d), ops: mine@ };
                groups.push(Group { route: Route::Device(d), ops: mine });
                assert(shares(groups@) =~= shares(before).push(added));
            }
            d = d + 1;
        }
        if let Some(card) = self.streamer() {
            let mine = self.share(ops, stream, min, Route::Stream(card));
            if mine.len() > 0 {
                let ghost before = groups@;
                let ghost added = Share { route: Route::Stream(card), ops: mine@ };
                groups.push(Group { route: Route::Stream(card), ops: mine });
                assert(shares(groups@) =~= shares(before).push(added));
            }
        }
        groups
    }
}

/// All the places of a plan's first `n` groups, one after another.
pub open spec fn all_places(plan: Seq<Share>, n: int) -> Seq<usize>
    decreases n,
{
    if n <= 0 {
        Seq::empty()
    } else {
        all_places(plan, n - 1) + plan[n - 1].ops
    }
}

/// Every place below `n` stands in the plan exactly once.
pub open spec fn covers(plan: Seq<Share>, n: int) -> bool {
    let all = all_places(plan, plan.len() as int);
    &&& all.no_duplicates()
    &&& forall|k: int| 0 <= k < all.len() ==> #[trigger] all[k] < n
    &&& forall|i: int| 0 <= i < n ==> all.contains(#[trigger] (i as usize))
}

proof fn lemma_all_places_agree(a: Seq<Share>, b: Seq<Share>, n: int)
    requires
        0 <= n <= a.len(),
        n <= b.len(),
        forall|k: int| 0 <= k < n ==> a[k] == b[k],
    ensures
        all_places(a, n) == all_places(b, n),
    decreases n,
{
    if n > 0 {
        lemma_all_places_agree(a, b, n - 1);
    }
}

/// A list that holds exactly the places below `n` whose route is wanted, each once.
spec fn exactly(all: Seq<usize>, n: int, wanted: spec_fn(int) -> bool) -> bool {
    &&& all.no_duplicates()
    &&& forall|k: int| 0 <= k < all.len() ==> (#[trigger] all[k]) < n && wanted(all[k] as int)
    &&& forall|i: int| 0 <= i < n && wanted(i) ==> all.contains(#[trigger] (i as usize))
}

impl MultiDeviceBackend {
    proof fn lemma_places(&self, ops: Seq<Op>, stream: bool, min: usize, route: Route, n: int)
        requires
            0 <= n <= ops.len(),
            ops.len() <= usize::MAX,
        ensures
            exactly(
                self.places(ops, stream, min, route, n),
                n,
                |i: int| self.route_spec(ops[i], stream, min) == route,
            ),
        decreases n,
    {
        let wanted = |i: int| self.route_spec(ops[i], stream, min) == route;
        let all = self.places(ops, stream, min, route, n);
        if n > 0 {
            self.lemma_places(ops, stream, min, route, n - 1);
            let rest = self.places(ops, stream, min, route, n - 1);
            assert forall|i: int| 0 <= i < n && wanted(i) implies all.contains(
                #[trigger] (i as usize),
            ) by {
                if i < n - 1 {
                    assert(rest.contains(i as usize));
                    let k = choose|k: int| 0 <= k < rest.len() && rest[k] == i as usize;
                    assert(all[k] == i as usize);
                } else {
                    assert(all[rest.len() as int] == i as usize);
                }
            }
        }
    }

    /// One more share keeps a plan exact, where the routes so far and the new one do not meet.
    proof fn lemma_with_share(
        &self,
        plan: Seq<Share>,
        ops: Seq<Op>,
        stream: bool,
        min: usize,
        route: Route,
        before: spec_fn(int) -> bool,
        after: spec_fn(int) -> bool,
    )
        requires
            ops.len() <= usize::MAX,
            exactly(all_places(plan, plan.len() as int), ops.len() as int, before),
            forall|i: int|
                0 <= i < ops.len() ==> #[trigger] after(i) == (before(i) || self.route_spec(
                    ops[i],
                    stream,
                    min,
                ) == route),
            forall|i: int|
                0 <= i < ops.len() ==> !(#[trigger] before(i) && self.route_spec(
                    ops[i],
                    stream,
                    min,
                ) == route),
        ensures
            ({
                let next = self.with_share(plan, ops, stream, min, route);
                exactly(all_places(next, next.len() as int), ops.len() as int, after)
            }),
    {
        let n = ops.len() as int;
        let here = |i: int| self.route_spec(ops[i], stream, min) == route;
        let mine = self.places(ops, stream, min, route, n);
        let next = self.with_share(plan, ops, stream, min, route);
        let old_all = all_places(plan, plan.len() as int);
        let all = all_places(next, next.len() as int);
        self.lemma_places(ops, stream, min, route, n);
        if mine.len() > 0 {
            lemma_all_places_agree(plan, next, plan.len() as int);
        }
        assert(all =~= old_all + mine);
        assert forall|a: int, b: int| 0 <= a < all.len() && 0 <= b < all.len() && a != b implies all[a]
            != all[b] by {
            if a < old_all.len() && b >= old_all.len() {
                assert(before(old_all[a] as int));
                assert(here(mine[b - old_all.len()] as int));
            } else if b < old_all.len() && a >= old_all.len() {
                assert(before(old_all[b] as int));
                assert(here(mine[a - old_all.len()] as int));
            } else if a >= old_all.len() {
                assert(mine[a - old_all.len()] != mine[b - old_all.len()]);
            }
        }
        assert forall|k: int| 0 <= k < all.len() implies (#[trigger] all[k]) < n && after(
            all[k] as int,
        ) by {
            if k < old_all.len() {
                assert(before(old_all[k] as int));
            } else {
                assert(here(mine[k - old_all.len()] as int));
            }
        }
        assert forall|i: int| 0 <= i < n && after(i) implies all.contains(
            #[trigger] (i as usize),
        ) by {
            if before(i) {
                let k = choose|k: int| 0 <= k < old_all.len() && old_all[k] == i as usize;
                assert(all[k] == i as usize);
            } else {
                assert(here(i));
                let k = choose|k: int| 0 <= k < mine.len() && mine[k] == i as usize;
                assert(all[old_all.len() + k] == i as usize);
            }
        }
    }

    proof fn lemma_device_shares(&self, ops: Seq<Op>, stream: bool, min: usize, d: int)
        requires
            0 <= d <= self.devices().len(),
            ops.len() <= usize::MAX,
        ensures
            ({
                let plan = self.device_shares(ops, stream, min, d);
                exactly(
                    all_places(plan, plan.len() as int),
                    ops.len() as int,
                    |i: int|
                        self.route_spec(ops[i], stream, min) matches Route::Device(k) && k < d,
                )
            }),
        decreases d,
    {
        let below = |i: int| self.route_spec(ops[i], stream, min) matches Route::Device(k) && k < d;
        if d > 0 {
            assert(self.devices.len() == self.devices@.len());
            let prev = self.device_shares(ops, stream, min, d - 1);
            let before = |i: int|
                self.route_spec(ops[i], stream, min) matches Route::Device(k) && k < d - 1;
            self.lemma_device_shares(ops, stream, min, d - 1);
            self.lemma_with_share(
                prev,
                ops,
                stream,
                min,
                Route::Device((d - 1) as usize),
                before,
                below,
            );
        }
    }

    /// Every operation of a batch belongs to exactly one group, whatever the devices and the
    /// batch.
    pub proof fn law_every_op_is_in_exactly_one_group(&self, ops: Seq<Op>, stream: bool, min: usize)
        requires
            self.sound(),
            ops.len() <= usize::MAX,
        ensures
            covers(self.batch_spec(ops, stream, min), ops.len() as int),
    {
        let n = ops.len() as int;
        let count = self.devices().len() as int;
        assert(self.devices.len() == self.devices@.len());
        let own = self.device_shares(ops, stream, min, count);
        let before = |i: int|
            self.route_spec(ops[i], stream, min) matches Route::Device(k) && k < count;
        let every = |i: int| true;
        self.lemma_device_shares(ops, stream, min, count);
        let plan = self.batch_spec(ops, stream, min);
        match self.card_from(0) {
            Some(card) => {
                self.lemma_with_share(
                    own,
                    ops,
                    stream,
                    min,
                    Route::Stream(card as usize),
                    before,
                    every,
                );
                assert(exactly(all_places(plan, plan.len() as int), n, every));
            },
            None => {
                assert(exactly(all_places(plan, plan.len() as int), n, before));
            },
        }
        let all = all_places(plan, plan.len() as int);
        assert forall|i: int| 0 <= i < n implies all.contains(#[trigger] (i as usize)) by {
            if self.card_from(0) is None {
                assert(before(i));
            } else {
                assert(every(i));
            }
        }
    }
}

/// The results of a plan's first `n` groups, one after another.
pub open spec fn all_results<T>(results: Seq<Vec<T>>, n: int) -> Seq<T>
    decreases n,
{
    if n <= 0 {
        Seq::empty()
    } else {
        all_results(results, n - 1) + results[n - 1]@
    }
}

/// As many results for each group as it has operations.
pub open spec fn answers<T>(plan: Seq<Share>, results: Seq<Vec<T>>) -> bool {
    &&& plan.len() == results.len()
    &&& forall|g: int| 0 <= g < plan.len() ==> (#[trigger] plan[g]).ops.len() == results[g]@.len()
}

proof fn lemma_lengths<T>(plan: Seq<Share>, results: Seq<Vec<T>>, n: int)
    requires
        answers(plan, results),
        0 <= n <= plan.len(),
    ensures
        all_places(plan, n).len() == all_results(results, n).len(),
    decreases n,
{
    if n > 0 {
        lemma_lengths(plan, results, n - 1);
        assert(plan[n - 1].ops.len() == results[n - 1]@.len());
    }
}

proof fn lemma_places_nest(plan: Seq<Share>, a: int, b: int)
    requires
        0 <= a <= b <= plan.len(),
    ensures
        all_places(plan, a).len() <= all_places(plan, b).len(),
        forall|k: int|
            0 <= k < all_places(plan, a).len() ==> #[trigger] all_places(plan, a)[k] == all_places(
                plan,
                b,
            )[k],
    decreases b,
{
    if a < b {
        lemma_places_nest(plan, a, b - 1);
    }
}

/// Puts the results of the groups back in the order the operations were given.
pub fn gather<T>(groups: &Vec<Group>, results: Vec<Vec<T>>, n: usize) -> (out: Vec<T>)
    requires
        covers(shares(groups@), n as int),
        answers(shares(groups@), results@),
    ensures
        out@.len() == n,
        forall|k: int|
            0 <= k < all_results(results@, results@.len() as int).len() ==> out@[(
            #[trigger] all_places(shares(groups@), groups@.len() as int)[k]) as int]
                == all_results(results@, results@.len() as int)[k],
        forall|g: int, m: int|
            0 <= g < groups@.len() && 0 <= m < groups@[g].ops@.len() ==> out@[(
            #[trigger] groups@[g].ops@[m]) as int] == results@[g]@[m],
{
    let ghost plan = shares(groups@);
    let ghost count = groups@.len() as int;
    let ghost places = all_places(plan, count);
    let ghost given = results@;
    let ghost values = all_results(given, count);
    proof {
        lemma_lengths(plan, given, count);
    }
    let mut slots: Vec<Option<T>> = Vec::new();
    let mut i: usize = 0;
    while i < n
        invariant
            i <= n,
            slots@.len() == i,
            forall|k: int| 0 <= k < i ==> #[trigger] slots@[k] is None,
        decreases n - i,
    {
        slots.push(None);
        i = i + 1;
    }
    let total: usize = groups.len();
    let mut g: usize = 0;
    for group in it: results
        invariant
            it.seq() == given,
            g == it.index(),
            total == groups@.len(),
            g <= total,
            count == groups@.len(),
            plan == shares(groups@),
            places == all_places(plan, count),
            values == all_results(given, count),
            covers(plan, n as int),
            answers(plan, given),
            slots@.len() == n,
            forall|k: int|
                0 <= k < all_places(plan, g as int).len() ==> slots@[(#[trigger] all_places(
                    plan,
                    g as int,
                )[k]) as int] == Some(all_results(given, g as int)[k]),
    {
        let ghost done = all_places(plan, g as int);
        let ghost done_values = all_results(given, g as int);
        let ghost here = plan[g as int].ops;
        let ghost next = all_places(plan, g + 1);
        let ghost part = group@;
        proof {
            lemma_lengths(plan, given, g as int);
            lemma_places_nest(plan, g + 1, count);
            assert(here == groups@[g as int].ops@);
            assert(next == done + here);
            assert(here.len() == given[g as int]@.len());
        }
        let share: usize = groups[g].ops.len();
        let mut m: usize = 0;
        for value in inner: group
            invariant
                inner.seq() == part,
                m == inner.index(),
                share == here.len(),
                m <= share,
                g < groups@.len(),
                part == given[g as int]@,
                here == groups@[g as int].ops@,
                here.len() == part.len(),
                next == done + here,
                done == all_places(plan, g as int),
                done_values == all_results(given, g as int),
                done.len() == done_values.len(),
                count == groups@.len(),
                plan == shares(groups@),
                places == all_places(plan, count),
                covers(plan, n as int),
                next.len() <= places.len(),
                forall|k: int| 0 <= k < next.len() ==> #[trigger] next[k] == places[k],
                slots@.len() == n,
                forall|k: int|
                    0 <= k < done.len() ==> slots@[(#[trigger] done[k]) as int] == Some(
                        done_values[k],
                    ),
                forall|k: int|
                    0 <= k < m ==> slots@[(#[trigger] here[k]) as int] == Some(part[k]),
        {
            let at: usize = groups[g].ops[m];
            proof {
                assert(next[done.len() + m] == at);
                assert(places[done.len() + m] == at);
                assert forall|k: int| 0 <= k < done.len() implies #[trigger] done[k] != at by {
                    assert(next[k] == done[k]);
                    assert(places[k] == done[k]);
                }
                assert forall|k: int| 0 <= k < m implies #[trigger] here[k] != at by {
                    assert(next[done.len() + k] == here[k]);
                    assert(places[done.len() + k] == here[k]);
                }
                assert forall|k: int| 0 <= k < done.len() implies (#[trigger] done[k]) < n by {
                    assert(next[k] == done[k]);
                    assert(places[k] == done[k]);
                }
                assert forall|k: int| 0 <= k < m implies (#[trigger] here[k]) < n by {
                    assert(next[done.len() + k] == here[k]);
                    assert(places[done.len() + k] == here[k]);
                }
            }
            slots.set(at, Some(value));
            m = m + 1;
        }
        proof {
            let after = all_results(given, g + 1);
            assert(after == done_values + part);
            assert forall|k: int| 0 <= k < next.len() implies slots@[(#[trigger] next[k]) as int]
                == Some(after[k]) by {
                if k < done.len() {
                    assert(next[k] == done[k]);
                } else {
                    assert(next[k] == here[k - done.len()]);
                }
            }
        }
        g = g + 1;
    }
    assert(g == count);
    assert forall|i: int| 0 <= i < n implies #[trigger] slots@[i] is Some by {
        assert(places.contains(i as usize));
        let k = choose|k: int| 0 <= k < places.len() && places[k] == i as usize;
        assert(slots@[places[k] as int] == Some(values[k]));
    }
    let ghost filled = slots@;
    let mut out: Vec<T> = Vec::new();
    for slot in it: slots
        invariant
            it.seq() == filled,
            out@.len() == it.index(),
            forall|i: int| 0 <= i < filled.len() ==> #[trigger] filled[i] is Some,
            forall|i: int| 0 <= i < out@.len() ==> Some(#[trigger] out@[i]) == filled[i],
    {
        if let Some(value) = slot {
            out.push(value);
        }
    }
    assert forall|k: int| 0 <= k < values.len() implies out@[(#[trigger] places[k]) as int]
        == values[k] by {
        assert(Some(out@[places[k] as int]) == filled[places[k] as int]);
    }
    assert forall|g: int, m: int|
        0 <= g < groups@.len() && 0 <= m < groups@[g].ops@.len() implies out@[(
    #[trigger] groups@[g].ops@[m]) as int] == given[g]@[m] by {
        assert(plan[g].ops == groups@[g].ops@);
        let k = lemma_answer_place(plan, given, count, g, m);
        assert(out@[places[k] as int] == values[k]);
    }
    out
}

impl MultiDeviceBackend {
    proof fn lemma_card_from(&self, from: int)
        requires
            0 <= from,
        ensures
            match self.card_from(from) {
                Some(i) => from <= i < self.devices().len() && self.devices()[i].card && forall|
                    k: int,
                |
                    from <= k < i ==> !(#[trigger] self.devices()[k]).card,
                None => forall|k: int|
                    from <= k < self.devices().len() ==> !(#[trigger] self.devices()[k]).card,
            },
        decreases self.devices().len() - from,
    {
        if from < self.devices().len() {
            self.lemma_card_from(from + 1);
        }
    }

    /// An operation goes to the device of its weights, to the last one where its tag is past the
    /// set; but a host layer's, as wide as asked, goes to the first card, where that has a kernel
    /// for it. No width asked streams nothing, and a batch that may not stream does not.
    pub proof fn law_only_wide_host_work_is_streamed(&self, op: Op, min: usize, c: int)
        requires
            self.sound(),
            0 <= c < self.devices().len(),
            self.devices()[c].card,
            forall|k: int| 0 <= k < c ==> !(#[trigger] self.devices()[k]).card,
        ensures
            ({
                let count = self.devices().len();
                let home = if op.device < count { op.device as int } else { count - 1 };
                let wide = min > 0 && op.n_tokens >= min && !self.devices()[home].card
                    && self.devices()[c].types@.contains(op.ggml_type);
                &&& self.route_spec(op, false, min) == Route::Device(home as usize)
                &&& wide ==> self.route_spec(op, true, min) == Route::Stream(c as usize)
                &&& !wide ==> self.route_spec(op, true, min) == Route::Device(home as usize)
            }),
            HOST_STREAM_TOKENS_DEFAULT == 32,
    {
        self.lemma_card_from(0);
        let first = self.card_from(0)->0;
        if first != c {
            assert(self.devices()[first].card);
        }
    }

    /// A set without a card streams nothing.
    pub proof fn law_no_card_no_stream(&self, op: Op, stream: bool, min: usize)
        requires
            forall|k: int| 0 <= k < self.devices().len() ==> !(#[trigger] self.devices()[k]).card,
        ensures
            self.route_spec(op, stream, min) is Device,
    {
        self.lemma_card_from(0);
        if let Some(card) = self.card_from(0) {
            assert(self.devices()[card].card);
        }
    }

    proof fn lemma_places_ascend(
        &self,
        ops: Seq<Op>,
        stream: bool,
        min: usize,
        route: Route,
        n: int,
    )
        requires
            0 <= n <= ops.len(),
            ops.len() <= usize::MAX,
        ensures
            ({
                let mine = self.places(ops, stream, min, route, n);
                &&& forall|k: int| 0 <= k < mine.len() ==> (#[trigger] mine[k]) < n
                    && self.route_spec(ops[mine[k] as int], stream, min) == route
                &&& forall|a: int, b: int| 0 <= a < b < mine.len() ==> mine[a] < mine[b]
            }),
        decreases n,
    {
        if n > 0 {
            self.lemma_places_ascend(ops, stream, min, route, n - 1);
        }
    }

    proof fn lemma_shares_in_order(&self, ops: Seq<Op>, stream: bool, min: usize, d: int)
        requires
            0 <= d <= self.devices().len(),
            ops.len() <= usize::MAX,
        ensures
            ({
                let plan = self.device_shares(ops, stream, min, d);
                &&& forall|g: int| 0 <= g < plan.len() ==> is_share(*self, ops, stream, min, #[trigger] plan[g])
                &&& forall|g: int| 0 <= g < plan.len() ==> ((#[trigger] plan[g]).route matches Route::Device(x) && x < d)
                &&& forall|g: int, h: int|
                    0 <= g < h < plan.len() ==> (#[trigger] plan[g]).route->Device_0 < (
                    #[trigger] plan[h]).route->Device_0
            }),
        decreases d,
    {
        if d > 0 {
            self.lemma_shares_in_order(ops, stream, min, d - 1);
            assert(self.devices.len() == self.devices@.len());
            let route = Route::Device((d - 1) as usize);
            self.lemma_places_ascend(ops, stream, min, route, ops.len() as int);
            let before = self.device_shares(ops, stream, min, d - 1);
            let plan = self.device_shares(ops, stream, min, d);
            assert forall|g: int| 0 <= g < plan.len() implies is_share(
                *self,
                ops,
                stream,
                min,
                #[trigger] plan[g],
            ) && (plan[g].route matches Route::Device(x) && x < d) by {
                if g < before.len() {
                    assert(plan[g] == before[g]);
                }
            }
            assert forall|g: int, h: int| 0 <= g < h < plan.len() implies (
            #[trigger] plan[g]).route->Device_0 < (#[trigger] plan[h]).route->Device_0 by {
                if h < before.len() {
                    assert(plan[g] == before[g] && plan[h] == before[h]);
                } else {
                    assert(plan[g] == before[g]);
                }
            }
        }
    }

    /// Each group holds operations that go its way, one at least, in the order they were given;
    /// the devices' groups come in the devices' order, and what is streamed comes last.
    pub proof fn law_groups_come_in_order(&self, ops: Seq<Op>, stream: bool, min: usize, g: int, h: int)
        requires
            self.sound(),
            ops.len() <= usize::MAX,
            0 <= g < h < self.batch_spec(ops, stream, min).len(),
        ensures
            ({
                let plan = self.batch_spec(ops, stream, min);
                &&& is_share(*self, ops, stream, min, plan[g])
                &&& is_share(*self, ops, stream, min, plan[h])
                &&& plan[g].route is Device
                &&& plan[h].route matches Route::Device(x) ==> plan[g].route->Device_0 < x
            }),
    {
        let count = self.devices().len() as int;
        assert(self.devices.len() == self.devices@.len());
        self.lemma_shares_in_order(ops, stream, min, count);
        let own = self.device_shares(ops, stream, min, count);
        let plan = self.batch_spec(ops, stream, min);
        if let Some(card) = self.card_from(0) {
            self.lemma_places_ascend(ops, stream, min, Route::Stream(card as usize), ops.len() as int);
        }
        assert(plan[g] == own[g]);
        if h < own.len() {
            assert(plan[h] == own[h]);
        }
    }
}

/// Whether a group is one way's operations of a batch, in their order, and not empty.
pub open spec fn is_share(
    set: MultiDeviceBackend,
    ops: Seq<Op>,
    stream: bool,
    min: usize,
    share: Share,
) -> bool {
    &&& share.ops.len() > 0
    &&& forall|k: int|
        0 <= k < share.ops.len() ==> (#[trigger] share.ops[k]) < ops.len() && set.route_spec(
            ops[share.ops[k] as int],
            stream,
            min,
        ) == share.route
    &&& forall|a: int, b: int| 0 <= a < b < share.ops.len() ==> share.ops[a] < share.ops[b]
}

proof fn lemma_answer_place<T>(plan: Seq<Share>, results: Seq<Vec<T>>, n: int, g: int, m: int) -> (k:
    int)
    requires
        answers(plan, results),
        0 <= g < n <= plan.len(),
        0 <= m < plan[g].ops.len(),
    ensures
        0 <= k < all_places(plan, n).len(),
        k < all_results(results, n).len(),
        all_places(plan, n)[k] == plan[g].ops[m],
        all_results(results, n)[k] == results[g]@[m],
    decreases n,
{
    lemma_lengths(plan, results, n);
    lemma_lengths(plan, results, n - 1);
    assert(plan[g].ops.len() == results[g]@.len());
    if g < n - 1 {
        let k = lemma_answer_place(plan, results, n - 1, g, m);
        k
    } else {
        all_places(plan, n - 1).len() + m
    }
}

} // verus!
