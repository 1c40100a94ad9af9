//! Routes and their keyed state store. A route owns an ordered sequence of
//! activities bracketed by synthetic start and end activities; the state
//! store carries the values that constraint modules compute for the route as
//! a whole and for each tour position, keyed by small integer state keys.

use vstd::prelude::*;

verus! {

/// Largest demand magnitude an activity may carry.
pub const DEMAND_LIMIT: i64 = 4294967296;

/// Largest number of activities a route may hold.
pub const ROUTE_LEN_LIMIT: usize = 1048576;

/// Largest time, duration or distance value the schedule handles.
pub const TIME_LIMIT: i64 = 1099511627776;

/// Largest state key the store accepts.
pub const STATE_KEY_LIMIT: i32 = 1024;

/// One stop of a tour: a demand, a place, the assigned time window and
/// schedule, and a service duration.
#[derive(Clone, Copy, PartialEq, Eq, Structural, Debug)]
pub struct Activity {
    /// Signed demand: positive picks up, negative delivers.
    pub demand: i64,
    /// Identifier of the place served.
    pub place: u64,
    /// Earliest admissible arrival.
    pub tw_start: i64,
    /// Latest admissible arrival.
    pub tw_end: i64,
    /// Scheduled arrival.
    pub arrival: i64,
    /// Scheduled departure.
    pub departure: i64,
    /// Service duration at the place.
    pub duration: i64,
}

/// A route: synthetic start and end activities around the tour, and the
/// capacity of the vehicle serving it.
#[derive(Clone, Debug)]
pub struct Route {
    /// The synthetic start activity.
    pub start: Activity,
    /// The synthetic end activity.
    pub end: Activity,
    /// The tour's activities, in visit order.
    pub activities: Vec<Activity>,
    /// The serving vehicle's capacity.
    pub capacity: i64,
}

impl Activity {
    /// An activity whose values lie within the machine operating ranges.
    pub open spec fn wf(self) -> bool {
        &&& -DEMAND_LIMIT <= self.demand <= DEMAND_LIMIT
        &&& 0 <= self.tw_start <= self.tw_end <= TIME_LIMIT
        &&& 0 <= self.duration <= TIME_LIMIT
    }

    /// An activity with the given demand and no other properties.
    pub fn with_demand(demand: i64) -> (r: Activity)
        ensures
            r.demand == demand,
            r.place == 0,
            r.tw_start == 0 && r.tw_end == 0,
            r.arrival == 0 && r.departure == 0,
            r.duration == 0,
    {
        Activity {
            demand,
            place: 0,
            tw_start: 0,
            tw_end: 0,
            arrival: 0,
            departure: 0,
            duration: 0,
        }
    }
}

impl Route {
    /// The demands of the tour's activities, in visit order.
    pub open spec fn demands(self) -> Seq<i64> {
        self.activities@.map_values(|a: Activity| a.demand)
    }

    /// A route whose values lie within the machine operating ranges.
    pub open spec fn wf(self) -> bool {
        &&& self.capacity >= 0
        &&& self.activities@.len() <= ROUTE_LEN_LIMIT
        &&& self.start.wf()
        &&& self.end.wf()
        &&& forall|i: int|
            0 <= i < self.activities@.len() ==> (#[trigger] self.activities@[i]).wf()
    }
}

/// A keyed state store: one slot per route-level key, and one slot per key
/// and tour position. Both are dense tables indexed by the key.
pub struct RouteState {
    /// Route-level slots, indexed by state key.
    pub route_values: Vec<Option<i64>>,
    /// Per-position slots, indexed by state key and then tour position.
    pub activity_values: Vec<Vec<Option<i64>>>,
}

impl RouteState {
    /// The route-level value stored under a key.
    pub open spec fn route_state_at(self, key: int) -> Option<i64> {
        if 0 <= key < self.route_values@.len() {
            self.route_values@[key]
        } else {
            None
        }
    }

    /// The value stored under a key for one tour position.
    pub open spec fn activity_state_at(self, key: int, index: int) -> Option<i64> {
        if 0 <= key < self.activity_values@.len() && 0 <= index
            < self.activity_values@[key]@.len() {
            self.activity_values@[key]@[index]
        } else {
            None
        }
    }

    /// An empty store.
    pub fn new() -> (r: RouteState)
        ensures
            forall|key: int, index: int| #[trigger] r.activity_state_at(key, index) is None,
            forall|key: int| #[trigger] r.route_state_at(key) is None,
    {
        RouteState { route_values: Vec::new(), activity_values: Vec::new() }
    }

    /// Reads a route-level value.
    pub fn get_route_state(&self, key: i32) -> (r: Option<i64>)
        requires
            key >= 0,
        ensures
            r == self.route_state_at(key as int),
    {
        if (key as usize) < self.route_values.len() {
            self.route_values[key as usize]
        } else {
            None
        }
    }

    /// Reads a value for one tour position.
    pub fn get_activity_state(&self, key: i32, index: usize) -> (r: Option<i64>)
        requires
            key >= 0,
        ensures
            r == self.activity_state_at(key as int, index as int),
    {
        if (key as usize) < self.activity_values.len() {
            let row = &self.activity_values[key as usize];
            if index < row.len() {
                row[index]
            } else {
                None
            }
        } else {
            None
        }
    }

    /// Stores a route-level value.
    pub fn put_route_state(&mut self, key: i32, value: i64)
        requires
            0 <= key < STATE_KEY_LIMIT,
        ensures
            final(self).route_state_at(key as int) == Some(value),
            forall|k: int|
                k != key ==> #[trigger] final(self).route_state_at(k) == old(self).route_state_at(
                    k,
                ),
            forall|k: int, index: int|
                #[trigger] final(self).activity_state_at(k, index) == old(
                    self,
                ).activity_state_at(k, index),
    {
        let k = key as usize;
        while self.route_values.len() <= k
            invariant
                k < 1024,
                forall|j: int|
                    0 <= j < self.route_values@.len() ==> #[trigger] self.route_values@[j] == old(
                        self,
                    ).route_state_at(j),
                self.activity_values == old(self).activity_values,
                self.route_values@.len() >= old(self).route_values@.len(),
            decreases k + 1 - self.route_values@.len(),
        {
            self.route_values.push(None);
        }
        self.route_values.set(k, Some(value));
    }

    /// Stores a value for one tour position.
    pub fn put_activity_state(&mut self, key: i32, index: usize, value: i64)
        requires
            0 <= key < STATE_KEY_LIMIT,
            index < ROUTE_LEN_LIMIT + 2,
        ensures
            final(self).activity_state_at(key as int, index as int) == Some(value),
            forall|k: int, j: int|
                !(k == key && j == index) ==> #[trigger] final(self).activity_state_at(k, j)
                    == old(self).activity_state_at(k, j),
            forall|k: int|
                #[trigger] final(self).route_state_at(k) == old(self).route_state_at(k),
    {
        let k = key as usize;
        while self.activity_values.len() <= k
            invariant
                k < 1024,
                forall|j: int, i2: int|
                    #[trigger] self.activity_state_at(j, i2) == old(self).activity_state_at(
                        j,
                        i2,
                    ),
                self.route_values == old(self).route_values,
                self.activity_values@.len() >= old(self).activity_values@.len(),
            decreases k + 1 - self.activity_values@.len(),
        {
            let ghost before = *self;
            self.activity_values.push(Vec::new());
            proof {
                assert forall|j: int, i2: int|
                    #[trigger] self.activity_state_at(j, i2) == old(self).activity_state_at(
                    j,
                    i2,
                ) by {
                    if 0 <= j < before.activity_values@.len() {
                        assert(self.activity_values@[j] == before.activity_values@[j]);
                        assert(self.activity_state_at(j, i2) == before.activity_state_at(j, i2));
                    } else if j >= 0 {
                        assert(self.activity_state_at(j, i2) is None);
                        assert(old(self).activity_state_at(j, i2) is None);
                    }
                }
            }
        }
        let ghost grown = *self;
        let mut row = self.activity_values.remove(k);
        proof {
            assert(row@.len() == grown.activity_values@[k as int]@.len());
        }
        while row.len() <= index
            invariant
                index < ROUTE_LEN_LIMIT + 2,
                row@.len() >= grown.activity_values@[k as int]@.len(),
                0 <= k < grown.activity_values@.len(),
                forall|j: int|
                    0 <= j < row@.len() ==> #[trigger] row@[j] == grown.activity_state_at(
                        k as int,
                        j,
                    ),
            decreases index + 1 - row@.len(),
        {
            let ghost rbefore = row@;
            row.push(None);
            proof {
                assert forall|j: int|
                    0 <= j < row@.len() implies #[trigger] row@[j] == grown.activity_state_at(
                    k as int,
                    j,
                ) by {
                    if j < rbefore.len() {
                        assert(row@[j] == rbefore[j]);
                    } else {
                        assert(row@[j] is None);
                        assert(grown.activity_state_at(k as int, j) is None);
                    }
                }
            }
        }
        row.set(index, Some(value));
        self.activity_values.insert(k, row);
        proof {
            assert(self.activity_values@ =~= grown.activity_values@.update(k as int, row));
            assert forall|k2: int, j: int|
                !(k2 == key && j == index) implies #[trigger] self.activity_state_at(k2, j) == old(
                self,
            ).activity_state_at(k2, j) by {
                assert(grown.activity_state_at(k2, j) == old(self).activity_state_at(k2, j));
                if k2 == k {
                    assert(self.activity_values@[k2] == row);
                    if 0 <= j < row@.len() && j != index {
                        assert(row@[j] == grown.activity_state_at(k as int, j));
                        assert(self.activity_state_at(k2, j) == row@[j]);
                    } else if j >= row@.len() {
                        assert(self.activity_state_at(k2, j) is None);
                        assert(j >= grown.activity_values@[k as int]@.len());
                        assert(grown.activity_state_at(k2, j) is None);
                    } else if j < 0 {
                        assert(self.activity_state_at(k2, j) is None);
                        assert(grown.activity_state_at(k2, j) is None);
                    }
                } else if 0 <= k2 < grown.activity_values@.len() {
                    assert(self.activity_values@[k2] == grown.activity_values@[k2]);
                    assert(self.activity_state_at(k2, j) == grown.activity_state_at(k2, j));
                } else {
                    assert(self.activity_state_at(k2, j) is None);
                    assert(grown.activity_state_at(k2, j) is None);
                }
            }
        }
    }

    /// Removes every value stored under a key, route-level and per
    /// position.
    pub fn remove(&mut self, key: i32)
        requires
            key >= 0,
        ensures
            final(self).route_state_at(key as int) is None,
            forall|j: int| #[trigger] final(self).activity_state_at(key as int, j) is None,
            forall|k: int|
                k != key ==> #[trigger] final(self).route_state_at(k) == old(self).route_state_at(
                    k,
                ),
            forall|k: int, j: int|
                k != key ==> #[trigger] final(self).activity_state_at(k, j) == old(
                    self,
                ).activity_state_at(k, j),
    {
        let k = key as usize;
        if k < self.route_values.len() {
            self.route_values.set(k, None);
        }
        if k < self.activity_values.len() {
            let ghost grown = *self;
            let _ = self.activity_values.remove(k);
            self.activity_values.insert(k, Vec::new());
            proof {
                assert(self.activity_values@ =~= grown.activity_values@.update(
                    k as int,
                    self.activity_values@[k as int],
                ));
                assert(self.activity_values@[k as int]@.len() == 0);
            }
        }
    }

    /// Forgets every stored value.
    pub fn clear(&mut self)
        ensures
            forall|k: int| #[trigger] final(self).route_state_at(k) is None,
            forall|k: int, j: int| #[trigger] final(self).activity_state_at(k, j) is None,
    {
        self.route_values = Vec::new();
        self.activity_values = Vec::new();
    }
}

/// A route together with its keyed state store.
pub struct RouteContext {
    /// The route.
    pub route: Route,
    /// The state computed for it.
    pub state: RouteState,
}

impl RouteContext {
    /// Wraps a route with an empty state store.
    pub fn new(route: Route) -> (r: RouteContext)
        ensures
            r.route == route,
            forall|key: int, index: int|
                #[trigger] r.state.activity_state_at(key, index) is None,
            forall|key: int| #[trigger] r.state.route_state_at(key) is None,
    {
        RouteContext { route, state: RouteState::new() }
    }
}

} // verus!
