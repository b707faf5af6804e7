use vstd::prelude::*;
use rand::rngs::StdRng;
use crate::draw::draw_error;
use crate::draw::generate;
use crate::draw::valid_bonus;
use crate::draw::valid_numbers;
use crate::draw::DrawConfig;
use crate::draw::DrawResult;
use crate::error::LottoError;
use crate::history::flattened;
use crate::history::parse_history;
use crate::history::parsed_draws;
use crate::history::rows;
use crate::history::texts;
use crate::history::valid_layout;
use crate::history::History;
use crate::history::LineLayout;
use crate::weights::is_table_of;
use crate::weights::max_of;
use crate::weights::min_of;
use crate::weights::table_error;
use crate::weights::table_weights;
use crate::weights::Policy;
use crate::weights::ValueRange;
use crate::weights::WeightTable;

verus! {

/// Everything that can be set about a run.
#[derive(Clone, Copy, Debug)]
pub struct Settings {
    /// Where the draws stand in the history text.
    pub layout: LineLayout,
    /// The candidates; `None` for the range from the smallest to the largest
    /// observed value.
    pub domain: Option<ValueRange>,
    /// How counts become weights.
    pub policy: Policy,
    /// The factor by which a frequency is scaled before it is rounded.
    pub scale: u64,
    /// The size and the number of the draws, and the bonus number.
    pub draw: DrawConfig,
}

/// What a run yields: the history it read, the weights it gave, the draws.
#[derive(Debug)]
pub struct Picks {
    pub history: History,
    pub table: WeightTable,
    pub draws: Vec<DrawResult>,
}

/// The candidates of a run over the observations `obs`.
pub open spec fn domain_for(obs: Seq<u32>, domain: Option<ValueRange>) -> ValueRange {
    match domain {
        Some(d) => d,
        None => ValueRange { lo: min_of(obs), hi: max_of(obs) },
    }
}

/// The first thing that stands against a run, if anything does: the
/// layout, a malformed data line, the weights, the draws, in this order.
pub open spec fn pick_error(lines: Seq<Seq<char>>, s: Settings) -> Option<LottoError> {
    if !valid_layout(s.layout) {
        Some(LottoError::InvalidRange)
    } else {
        match parsed_draws(lines, s.layout) {
            None => Some(LottoError::MalformedLine),
            Some(ds) => {
                let obs = flattened(ds);
                let d = domain_for(obs, s.domain);
                match table_error(obs, d.lo, d.hi, s.policy, s.scale) {
                    Some(e) => Some(e),
                    None => draw_error(table_weights(obs, d.lo as int, d.hi as int, s.policy, s.scale as nat), s.draw),
                }
            },
        }
    }
}

/// A whole run: reads the draws out of `lines`, weighs the candidates by
/// how often they were drawn, and makes the draws that `settings` asks for.
pub fn pick(lines: &Vec<String>, settings: &Settings, rng: &mut StdRng) -> (r: Result<Picks, LottoError>)
    ensures
        match r {
            Ok(p) => {
                let obs = p.history.observations@;
                let d = domain_for(obs, settings.domain);
                &&& pick_error(texts(lines@), *settings) is None
                &&& parsed_draws(texts(lines@), settings.layout) == Some(rows(p.history.draws@))
                &&& obs == flattened(rows(p.history.draws@))
                &&& is_table_of(p.table, obs, d.lo, d.hi, settings.policy, settings.scale)
                &&& p.draws@.len() == settings.draw.draws
                &&& forall|i: int| 0 <= i < p.draws@.len() ==> valid_numbers(p.table, settings.draw.draw_size as nat, (#[trigger] p.draws@[i]).numbers@)
                &&& forall|i: int| 0 <= i < p.draws@.len() ==> valid_bonus(settings.draw.bonus, (#[trigger] p.draws@[i]).bonus)
            },
            Err(e) => pick_error(texts(lines@), *settings) == Some(e),
        },
{
    let history = match parse_history(lines, &settings.layout) {
        Ok(history) => history,
        Err(e) => {
            return Err(e);
        },
    };
    let made = match settings.domain {
        Some(d) => WeightTable::with_domain(&history.observations, d.lo, d.hi, settings.policy, settings.scale),
        None => WeightTable::from_observations(&history.observations, settings.policy, settings.scale),
    };
    let table = match made {
        Ok(table) => table,
        Err(e) => {
            return Err(e);
        },
    };
    let draws = match generate(&table, &settings.draw, rng) {
        Ok(draws) => draws,
        Err(e) => {
            return Err(e);
        },
    };
    Ok(Picks { history, table, draws })
}

} // verus!
