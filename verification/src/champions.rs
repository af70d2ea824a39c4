use vstd::prelude::*;

verus! {

/// A unit in the catalog: a stable string identifier, a display name, the
/// names of the traits it carries, and its shop cost.
#[derive(Debug)]
pub struct Champion {
    pub id: ChampionId,
    pub name: String,
    pub traits: Vec<String>,
    pub cost: u32,
}

/// The stable string key of a champion.
#[derive(Debug, PartialEq, Eq, Hash)]
pub struct ChampionId(pub String);

/// The catalog of all champions available to a search.
///
/// The champions keep the order in which they were loaded; every enumeration
/// in the library walks them in that order, so results are deterministic for
/// a fixed catalog.
#[derive(Debug)]
pub struct ChampionPool {
    pub all: Vec<Champion>,
}

/// A trait definition: a name and the count breakpoints of its tiers,
/// listed from lowest to highest.
#[derive(Debug)]
pub struct Trait {
    pub name: String,
    pub effects: Vec<TraitEffect>,
}

/// One tier of a trait: the minimum unit count at which it activates.
#[derive(Debug)]
pub struct TraitEffect {
    pub min_units: u32,
}

/// A finished composition: the chosen unit identifiers, the trait
/// activations they produce, and how many distinct traits are active.
#[derive(Debug)]
pub struct OptimalComp {
    pub units: Vec<ChampionId>,
    pub activated_traits: Vec<TraitActivation>,
    pub total_traits_activated: usize,
}

/// One active trait: its name, the accumulated count (units plus bonuses),
/// and the highest breakpoint that count meets.
#[derive(Debug)]
pub struct TraitActivation {
    pub name: String,
    pub count: usize,
    pub breakpoint_hit: u32,
}

/// Mathematical image of a `Champion`.
pub ghost struct ChampionView {
    pub id: Seq<char>,
    pub name: Seq<char>,
    pub traits: Seq<Seq<char>>,
    pub cost: u32,
}

/// Mathematical image of a `Trait`: its name and its breakpoints.
pub ghost struct TraitView {
    pub name: Seq<char>,
    pub effects: Seq<u32>,
}

/// Mathematical image of a `TraitActivation`.
pub ghost struct ActivationView {
    pub name: Seq<char>,
    pub count: int,
    pub breakpoint_hit: u32,
}

/// Mathematical image of an `OptimalComp`.
pub ghost struct CompView {
    pub units: Seq<Seq<char>>,
    pub activated_traits: Seq<ActivationView>,
    pub total_traits_activated: int,
}

impl View for ChampionId {
    type V = Seq<char>;

    open spec fn view(&self) -> Seq<char> {
        self.0@
    }
}

impl View for Champion {
    type V = ChampionView;

    open spec fn view(&self) -> ChampionView {
        ChampionView {
            id: self.id@,
            name: self.name@,
            traits: self.traits@.map_values(|t: String| t@),
            cost: self.cost,
        }
    }
}

impl View for ChampionPool {
    type V = Seq<ChampionView>;

    open spec fn view(&self) -> Seq<ChampionView> {
        self.all@.map_values(|c: Champion| c@)
    }
}

impl View for Trait {
    type V = TraitView;

    open spec fn view(&self) -> TraitView {
        TraitView {
            name: self.name@,
            effects: self.effects@.map_values(|e: TraitEffect| e.min_units),
        }
    }
}

impl View for TraitActivation {
    type V = ActivationView;

    open spec fn view(&self) -> ActivationView {
        ActivationView { name: self.name@, count: self.count as int, breakpoint_hit: self.breakpoint_hit }
    }
}

impl View for OptimalComp {
    type V = CompView;

    open spec fn view(&self) -> CompView {
        CompView {
            units: self.units@.map_values(|c: ChampionId| c@),
            activated_traits: self.activated_traits@.map_values(|a: TraitActivation| a@),
            total_traits_activated: self.total_traits_activated as int,
        }
    }
}

/// View of a list of champion identifiers.
pub open spec fn ids_view(s: Seq<ChampionId>) -> Seq<Seq<char>> {
    s.map_values(|c: ChampionId| c@)
}

/// View of a list of champions.
pub open spec fn champs_view(s: Seq<Champion>) -> Seq<ChampionView> {
    s.map_values(|c: Champion| c@)
}

/// View of a list of trait definitions.
pub open spec fn traits_view(s: Seq<Trait>) -> Seq<TraitView> {
    s.map_values(|t: Trait| t@)
}

/// View of a list of (trait name, count) bonuses.
pub open spec fn bonuses_view(s: Seq<(String, u32)>) -> Seq<(Seq<char>, u32)> {
    s.map_values(|b: (String, u32)| (b.0@, b.1))
}

impl Clone for ChampionId {
    fn clone(&self) -> (r: Self)
        ensures
            r@ == self@,
    {
        ChampionId(self.0.clone())
    }
}

impl Clone for Champion {
    fn clone(&self) -> (r: Self)
        ensures
            r@ == self@,
    {
        Champion {
            id: self.id.clone(),
            name: self.name.clone(),
            traits: clone_strings(&self.traits),
            cost: self.cost,
        }
    }
}

impl Clone for TraitEffect {
    fn clone(&self) -> (r: Self)
        ensures
            r == *self,
    {
        TraitEffect { min_units: self.min_units }
    }
}

impl Clone for Trait {
    fn clone(&self) -> (r: Self)
        ensures
            r@ == self@,
    {
        let mut effects: Vec<TraitEffect> = Vec::new();
        let mut i: usize = 0;
        while i < self.effects.len()
            invariant
                i <= self.effects@.len(),
                effects@ =~= self.effects@.take(i as int),
            decreases self.effects@.len() - i,
        {
            effects.push(self.effects[i].clone());
            i = i + 1;
        }
        proof {
            assert(effects@ =~= self.effects@);
            assert(effects@.map_values(|e: TraitEffect| e.min_units) =~= self@.effects);
        }
        Trait { name: self.name.clone(), effects }
    }
}

impl Clone for TraitActivation {
    fn clone(&self) -> (r: Self)
        ensures
            r@ == self@,
    {
        TraitActivation { name: self.name.clone(), count: self.count, breakpoint_hit: self.breakpoint_hit }
    }
}

/// Clones a list of strings, keeping the exact contents.
pub fn clone_strings(v: &Vec<String>) -> (r: Vec<String>)
    ensures
        r@ == v@,
{
    let mut r: Vec<String> = Vec::new();
    let mut i: usize = 0;
    while i < v.len()
        invariant
            i <= v@.len(),
            r@ =~= v@.take(i as int),
        decreases v@.len() - i,
    {
        r.push(v[i].clone());
        i = i + 1;
    }
    proof {
        assert(r@ =~= v@);
    }
    r
}

/// Clones a list of champion identifiers, keeping the exact contents.
pub fn clone_ids(v: &Vec<ChampionId>) -> (r: Vec<ChampionId>)
    ensures
        ids_view(r@) == ids_view(v@),
        r@.len() == v@.len(),
{
    let mut r: Vec<ChampionId> = Vec::new();
    let mut i: usize = 0;
    while i < v.len()
        invariant
            i <= v@.len(),
            r@.len() == i,
            forall|j: int| 0 <= j < i ==> r@[j]@ == v@[j]@,
        decreases v@.len() - i,
    {
        r.push(v[i].clone());
        i = i + 1;
    }
    proof {
        assert(ids_view(r@) =~= ids_view(v@));
    }
    r
}

/// Whether a list of trait names holds `name`.
pub open spec fn spec_contains_name(names: Seq<Seq<char>>, name: Seq<char>) -> bool {
    exists|i: int| 0 <= i < names.len() && names[i] == name
}

/// Whether one of the strings in `v` equals `name`.
pub fn contains_name(v: &Vec<String>, name: &String) -> (r: bool)
    ensures
        r == spec_contains_name(v@.map_values(|t: String| t@), name@),
{
    let ghost names = v@.map_values(|t: String| t@);
    let mut i: usize = 0;
    while i < v.len()
        invariant
            i <= v@.len(),
            names == v@.map_values(|t: String| t@),
            forall|j: int| 0 <= j < i ==> names[j] != name@,
        decreases v@.len() - i,
    {
        if v[i] == *name {
            proof {
                assert(names[i as int] == name@);
            }
            return true;
        }
        i = i + 1;
    }
    false
}

/// Whether one of the identifiers in `v` equals `id`.
pub fn ids_contain(v: &Vec<ChampionId>, id: &ChampionId) -> (r: bool)
    ensures
        r == spec_contains_name(ids_view(v@), id@),
{
    let ghost names = ids_view(v@);
    let mut i: usize = 0;
    while i < v.len()
        invariant
            i <= v@.len(),
            names == ids_view(v@),
            forall|j: int| 0 <= j < i ==> names[j] != id@,
        decreases v@.len() - i,
    {
        if v[i].0 == id.0 {
            proof {
                assert(names[i as int] == id@);
            }
            return true;
        }
        i = i + 1;
    }
    false
}

/// The first champion in `pool` (scanning from index `i` up) whose
/// identifier is `id`.
pub open spec fn spec_lookup_from(pool: Seq<ChampionView>, i: int, id: Seq<char>) -> Option<ChampionView>
    decreases pool.len() - i,
{
    if i < 0 || i >= pool.len() {
        None
    } else if pool[i].id == id {
        Some(pool[i])
    } else {
        spec_lookup_from(pool, i + 1, id)
    }
}

/// The champion the catalog resolves `id` to: the first entry carrying that
/// identifier, or nothing when the identifier is unknown.
pub open spec fn spec_lookup(pool: Seq<ChampionView>, id: Seq<char>) -> Option<ChampionView> {
    spec_lookup_from(pool, 0, id)
}

/// A well-formed catalog: no two champions share an identifier.
pub open spec fn pool_wf(pool: Seq<ChampionView>) -> bool {
    forall|i: int, j: int| 0 <= i < j < pool.len() ==> pool[i].id != pool[j].id
}

/// A successful lookup returns a catalog member carrying the queried
/// identifier.
pub proof fn lemma_lookup_from_id(pool: Seq<ChampionView>, i: int, id: Seq<char>)
    ensures
        spec_lookup_from(pool, i, id) is Some ==> {
            &&& spec_lookup_from(pool, i, id)->Some_0.id == id
            &&& pool.contains(spec_lookup_from(pool, i, id)->Some_0)
        },
    decreases pool.len() - i,
{
    if 0 <= i < pool.len() {
        if pool[i].id == id {
            assert(pool.contains(pool[i]));
        } else {
            lemma_lookup_from_id(pool, i + 1, id);
        }
    }
}

proof fn lemma_lookup_from_finds(pool: Seq<ChampionView>, i: int, k: int)
    requires
        0 <= i <= k < pool.len(),
        forall|j: int| i <= j < k ==> pool[j].id != pool[k].id,
    ensures
        spec_lookup_from(pool, i, pool[k].id) == Some(pool[k]),
    decreases k - i,
{
    if i < k {
        lemma_lookup_from_finds(pool, i + 1, k);
    }
}

/// In a well-formed catalog, every member is found by its own identifier.
pub proof fn lemma_lookup_member(pool: Seq<ChampionView>, k: int)
    requires
        pool_wf(pool),
        0 <= k < pool.len(),
    ensures
        spec_lookup(pool, pool[k].id) == Some(pool[k]),
{
    lemma_lookup_from_finds(pool, 0, k);
}

impl ChampionPool {
    /// Builds the catalog from a list of champions, keeping their order.
    pub fn with_data(champions: Vec<Champion>) -> (pool: ChampionPool)
        ensures
            pool@ == champs_view(champions@),
    {
        ChampionPool { all: champions }
    }

    /// Looks `id` up in the catalog; resolves to the first champion with
    /// that identifier, or to nothing when the identifier is unknown.
    pub fn by_id(&self, id: &ChampionId) -> (r: Option<&Champion>)
        ensures
            match r {
                Some(c) => spec_lookup(self@, id@) == Some(c@),
                None => spec_lookup(self@, id@) is None,
            },
    {
        let mut i: usize = 0;
        while i < self.all.len()
            invariant
                i <= self@.len(),
                spec_lookup(self@, id@) == spec_lookup_from(self@, i as int, id@),
            decreases self@.len() - i,
        {
            if self.all[i].id.0 == id.0 {
                return Some(&self.all[i]);
            }
            i = i + 1;
        }
        None
    }
}

} // verus!
