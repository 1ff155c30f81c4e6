//! How many bots an arena keeps, and how quickly it gets there.
use vstd::prelude::*;

verus! {

/// How many bots an arena keeps when no setting fixes the number.
#[derive(Copy, Clone, Debug)]
pub struct BotOptions {
    /// Minimum number of bots (at most `max_bots`).
    pub min_bots: usize,
    /// Maximum number of bots.
    pub max_bots: usize,
    /// This percent of real players helps determine the number of bots:
    /// counted up from zero when positive, down from `max_bots` when
    /// negative.
    pub bot_percent: isize,
}

/// What a bot decided to do this tick.
#[derive(Debug)]
pub enum BotAction<GR> {
    /// Send this command.
    Command(GR),
    /// Do nothing, for this reason.
    Idle(&'static str),
    /// Quit (and be replaced).
    Quit,
}

impl<GR> Default for BotAction<GR> {
    fn default() -> (r: Self)
        ensures
            r == BotAction::<GR>::Idle("default"),
    {
        BotAction::Idle("default")
    }
}

/// `x` held within `lo..=hi`.
pub open spec fn clamp(x: int, lo: int, hi: int) -> int {
    if x < lo {
        lo
    } else if x > hi {
        hi
    } else {
        x
    }
}

/// Division by 100 rounding toward zero.
pub open spec fn div100_toward_zero(x: int) -> int {
    if x >= 0 {
        x / 100
    } else {
        -((-x) / 100)
    }
}

/// The number of bots for `live` real players by the options alone: a
/// percentage of the players (the product held within `usize`), or, for a
/// negative percentage, `max_bots` less that percentage of the players (the
/// product held within `isize`, the difference at least zero and within
/// `usize`).
pub open spec fn auto_bot_count(auto: BotOptions, live: u32) -> int {
    if auto.bot_percent >= 0 {
        clamp(auto.bot_percent * live, 0, usize::MAX as int) / 100
    } else {
        clamp(
            auto.max_bots + div100_toward_zero(clamp(auto.bot_percent * live, isize::MIN as int, isize::MAX as int)),
            0,
            usize::MAX as int,
        )
    }
}

/// The number of bots an arena wants: the setting when there is one, else
/// `auto_bot_count` held within the options' bounds, as a `u16` (keeping its
/// low 16 bits).
pub open spec fn wanted_bots(auto: BotOptions, live: u32, setting: Option<u16>) -> u16 {
    match setting {
        Some(n) => n,
        None => clamp(auto_bot_count(auto, live), auto.min_bots as int, auto.max_bots as int) as u16,
    }
}

/// The number of bots an arena wants (see `wanted_bots`).
pub fn target_bot_count(auto: BotOptions, real_players_live: u32, setting: Option<u16>) -> (r: u16)
    requires
        setting is None ==> auto.min_bots <= auto.max_bots,
    ensures
        r == wanted_bots(auto, real_players_live, setting),
{
    if let Some(n) = setting {
        return n;
    }
    let live = real_players_live as i128;
    let percent = auto.bot_percent as i128;
    proof {
        assert(-0x1_0000_0000_0000_0000_0000_0000i128 <= percent * live <= 0x1_0000_0000_0000_0000_0000_0000i128)
            by (nonlinear_arith)
            requires
                isize::MIN <= percent <= isize::MAX,
                0 <= live <= u32::MAX,
                isize::MIN >= -0x8000_0000_0000_0000i128,
                isize::MAX <= 0x7fff_ffff_ffff_ffffi128,
        ;
    }
    let raw: usize = if auto.bot_percent >= 0 {
        let product = percent * live;
        let held: u128 = if product > usize::MAX as i128 {
            usize::MAX as u128
        } else {
            product as u128
        };
        (held / 100) as usize
    } else {
        let product = percent * live;
        let held: i128 = if product < isize::MIN as i128 {
            isize::MIN as i128
        } else {
            product
        };
        let share: i128 = -((-held) / 100);
        let sum = auto.max_bots as i128 + share;
        if sum < 0 {
            0
        } else {
            sum as usize
        }
    };
    proof {
        assert(auto.bot_percent >= 0 ==> auto.bot_percent * real_players_live >= 0) by (nonlinear_arith);
        assert(auto.bot_percent < 0 ==> auto.bot_percent * real_players_live <= 0) by (nonlinear_arith);
    }
    let held = if raw < auto.min_bots {
        auto.min_bots
    } else if raw > auto.max_bots {
        auto.max_bots
    } else {
        raw
    };
    held as u16
}

/// How many bots there are after one step toward `target` from `count`: at
/// most the larger of 4 and a fiftieth of the target are added or removed
/// per step.
pub open spec fn bot_count_step(target: usize, count: usize) -> usize {
    let governor: int = if target / 50 > 4 {
        (target / 50) as int
    } else {
        4
    };
    if target < count {
        (count - if count - target < governor {
            count - target
        } else {
            governor
        }) as usize
    } else {
        (count + if target - count < governor {
            target - count
        } else {
            governor
        }) as usize
    }
}

/// The number of bots in an arena.
#[derive(Debug)]
pub struct BotRepo {
    /// Bots `0..count` exist.
    pub count: usize,
}

impl Default for BotRepo {
    fn default() -> (r: Self)
        ensures
            r.count == 0,
    {
        BotRepo { count: 0 }
    }
}

impl BotRepo {
    /// Takes one step toward `target` bots (see `bot_count_step`); the
    /// caller removes the bots from the new count up to the old one, or
    /// adds those from the old count up to the new one.
    pub fn set_count(&mut self, target: usize)
        ensures
            final(self).count == bot_count_step(target, old(self).count),
    {
        let mut governor: usize = if target / 50 > 4 {
            target / 50
        } else {
            4
        };
        let ghost g0 = governor as int;
        let ghost c0 = self.count as int;
        if target < self.count {
            while target < self.count && governor > 0
                invariant
                    target < c0,
                    governor <= g0,
                    self.count == c0 - (g0 - governor),
                    self.count >= target,
                decreases governor,
            {
                self.count = self.count - 1;
                governor = governor - 1;
            }
        } else {
            while target > self.count && governor > 0
                invariant
                    target >= c0,
                    governor <= g0,
                    self.count == c0 + (g0 - governor),
                    self.count <= target,
                decreases governor,
            {
                self.count = self.count + 1;
                governor = governor - 1;
            }
        }
    }
}

} // verus!
