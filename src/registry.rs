use vstd::prelude::*;

verus! {

/// Assigns dense ids `0, 1, 2, ...` to string keys in the order they are
/// first seen; the id of a key never changes.
pub struct IdRegistry {
    keys: Vec<String>,
}

/// No key occurs twice in `keys`.
pub open spec fn distinct_keys(keys: Seq<Seq<char>>) -> bool {
    forall|i: int, j: int| 0 <= i < j < keys.len() ==> keys[i] != keys[j]
}

/// The keys by id after looking up `key` in a registry holding `reg`.
pub open spec fn register(reg: Seq<Seq<char>>, key: Seq<char>) -> Seq<Seq<char>> {
    if reg.contains(key) {
        reg
    } else {
        reg.push(key)
    }
}

/// The keys by id after looking up each of `keys` in turn, from empty.
pub open spec fn registered(keys: Seq<Seq<char>>) -> Seq<Seq<char>>
    decreases keys.len(),
{
    if keys.len() == 0 {
        Seq::empty()
    } else {
        register(registered(keys.drop_last()), keys.last())
    }
}

/// The keys that a list of routes looks up: source, then destination, route
/// by route.
pub open spec fn route_keys(routes: Seq<(String, String)>) -> Seq<Seq<char>>
    decreases routes.len(),
{
    if routes.len() == 0 {
        Seq::empty()
    } else {
        route_keys(routes.drop_last()).push(routes.last().0@).push(routes.last().1@)
    }
}

/// Over any sequence of lookups, no two keys share an id, and a key keeps the
/// id it first received: the registry after the first `i` lookups is a
/// prefix of the registry after the first `j`.
pub proof fn lemma_registry_ids(keys: Seq<Seq<char>>, i: int, j: int)
    requires
        0 <= i <= j <= keys.len(),
    ensures
        distinct_keys(registered(keys.take(j))),
        registered(keys.take(i)).len() <= registered(keys.take(j)).len(),
        forall|k: int|
            0 <= k < registered(keys.take(i)).len() ==> #[trigger] registered(keys.take(j))[k]
                == registered(keys.take(i))[k],
    decreases j,
{
    if j > 0 {
        let prev = keys.take(j - 1);
        assert(keys.take(j).drop_last() == prev);
        if i < j {
            lemma_registry_ids(keys, i, j - 1);
        } else {
            lemma_registry_ids(keys, i - 1, j - 1);
        }
    }
}

/// At most one id per lookup.
pub proof fn lemma_registered_len(keys: Seq<Seq<char>>)
    ensures
        registered(keys).len() <= keys.len(),
    decreases keys.len(),
{
    if keys.len() > 0 {
        lemma_registered_len(keys.drop_last());
    }
}

impl View for IdRegistry {
    /// The key of each id, by id.
    type V = Seq<Seq<char>>;

    closed spec fn view(&self) -> Seq<Seq<char>> {
        self.keys@.map_values(|k: String| k@)
    }
}

impl IdRegistry {
    /// Each key holds one id only.
    pub open spec fn wf(&self) -> bool {
        distinct_keys(self@)
    }

    /// An empty registry: the next id is 0.
    pub fn new() -> (r: IdRegistry)
        ensures
            r.wf(),
            r@ == Seq::<Seq<char>>::empty(),
    {
        let r = IdRegistry { keys: Vec::new() };
        assert(r@ =~= Seq::<Seq<char>>::empty());
        r
    }

    /// The number of ids handed out so far.
    pub fn len(&self) -> (r: usize)
        ensures
            r == self@.len(),
    {
        self.keys.len()
    }

    /// The id of `key`, if it has one.
    pub fn id_of(&self, key: &str) -> (r: Option<usize>)
        ensures
            r matches Some(i) ==> (i as int) < self@.len() && self@[i as int] == key@,
            r is None ==> !self@.contains(key@),
    {
        let probe = key.to_owned();
        let mut i: usize = 0;
        while i < self.keys.len()
            invariant
                0 <= i <= self@.len(),
                self@.len() == self.keys@.len(),
                probe@ == key@,
                forall|j: int| 0 <= j < i ==> self@[j] != key@,
            decreases self@.len() - i,
        {
            if self.keys[i] == probe {
                return Some(i);
            }
            i = i + 1;
        }
        None
    }

    /// The key that received `id`, if any.
    pub fn key_of(&self, id: usize) -> (r: Option<&String>)
        ensures
            r matches Some(k) ==> (id as int) < self@.len() && k@ == self@[id as int],
            r is None <==> (id as int) >= self@.len(),
    {
        if id < self.keys.len() {
            Some(&self.keys[id])
        } else {
            None
        }
    }

    /// The id of `key`; a key not seen before receives the next unused id.
    pub fn assign_or_get(&mut self, key: &str) -> (r: usize)
        requires
            old(self).wf(),
            old(self)@.len() < usize::MAX,
        ensures
            final(self).wf(),
            final(self)@ == register(old(self)@, key@),
            (r as int) < final(self)@.len(),
            final(self)@[r as int] == key@,
    {
        match self.id_of(key) {
            Some(i) => i,
            None => {
                let id = self.keys.len();
                let ghost before = self@;
                self.keys.push(key.to_owned());
                assert(self@ =~= before.push(key@));
                id
            },
        }
    }
}

/// Gives every airport of `routes` an id, in order of first appearance
/// (source before destination, route by route), and expresses each route as
/// the pair of its endpoints' ids.
pub fn map_airports_to_integers(routes: &Vec<(String, String)>) -> (r: (
    IdRegistry,
    Vec<(usize, usize)>,
))
    requires
        routes@.len() < usize::MAX / 2,
    ensures
        r.0.wf(),
        r.0@ == registered(route_keys(routes@)),
        r.1@.len() == routes@.len(),
        forall|i: int|
            0 <= i < routes@.len() ==> {
                &&& (r.1@[i].0 as int) < r.0@.len()
                &&& (r.1@[i].1 as int) < r.0@.len()
                &&& r.0@[r.1@[i].0 as int] == routes@[i].0@
                &&& r.0@[r.1@[i].1 as int] == routes@[i].1@
            },
{
    let mut registry = IdRegistry::new();
    let mut int_routes: Vec<(usize, usize)> = Vec::new();
    let mut i: usize = 0;
    while i < routes.len()
        invariant
            0 <= i <= routes@.len(),
            routes@.len() < usize::MAX / 2,
            registry.wf(),
            registry@ == registered(route_keys(routes@.take(i as int))),
            int_routes@.len() == i,
            forall|j: int|
                0 <= j < i ==> {
                    &&& (int_routes@[j].0 as int) < registry@.len()
                    &&& (int_routes@[j].1 as int) < registry@.len()
                    &&& registry@[int_routes@[j].0 as int] == routes@[j].0@
                    &&& registry@[int_routes@[j].1 as int] == routes@[j].1@
                },
        decreases routes@.len() - i,
    {
        let ghost before = registry@;
        let ghost prefix = routes@.take(i as int);
        let ghost next = routes@.take(i + 1);
        proof {
            assert(next.drop_last() == prefix);
            lemma_registered_len(route_keys(prefix));
            lemma_route_keys_len(prefix);
        }
        let src = registry.assign_or_get(routes[i].0.as_str());
        let ghost mid = registry@;
        let dst = registry.assign_or_get(routes[i].1.as_str());
        int_routes.push((src, dst));
        proof {
            let ks = route_keys(next);
            assert(ks.drop_last().drop_last() == route_keys(prefix));
            assert(ks.drop_last().last() == routes@[i as int].0@);
            assert(ks.last() == routes@[i as int].1@);
            assert(registered(ks.drop_last()) == mid);
            assert(registry@ == registered(ks));
            assert forall|j: int| 0 <= j < i + 1 implies {
                &&& (int_routes@[j].0 as int) < registry@.len()
                &&& (int_routes@[j].1 as int) < registry@.len()
                &&& registry@[int_routes@[j].0 as int] == routes@[j].0@
                &&& registry@[int_routes@[j].1 as int] == routes@[j].1@
            } by {
                if j < i {
                    assert(int_routes@[j] == int_routes@.drop_last()[j]);
                }
            }
        }
        i = i + 1;
    }
    proof {
        assert(routes@.take(routes@.len() as int) == routes@);
    }
    (registry, int_routes)
}

/// Two keys per route.
proof fn lemma_route_keys_len(routes: Seq<(String, String)>)
    ensures
        route_keys(routes).len() == 2 * routes.len(),
    decreases routes.len(),
{
    if routes.len() > 0 {
        lemma_route_keys_len(routes.drop_last());
    }
}

} // verus!
