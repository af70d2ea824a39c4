use vstd::prelude::*;
use crate::champions::{ChampionPool, Trait};

verus! {

/// The read-only context a search runs against: the champion catalog and
/// the trait definitions. It is built once, after the catalog is loaded,
/// and passed by shared reference into every search; nothing mutates it
/// afterwards.
#[derive(Debug)]
pub struct Context {
    pub champion_pool: ChampionPool,
    pub traits: Vec<Trait>,
}

/// Builds the process-wide context from the loaded catalog and trait
/// definitions. Construct it exactly once at startup; there is no
/// re-initialisation path.
pub fn init(champion_pool: ChampionPool, traits: Vec<Trait>) -> (ctx: Context)
    ensures
        ctx.champion_pool == champion_pool,
        ctx.traits == traits,
{
    Context { champion_pool, traits }
}

/// Borrows the installed context for the duration of a search.
pub fn get(ctx: &Context) -> (r: &Context)
    ensures
        r == ctx,
{
    ctx
}

} // verus!
