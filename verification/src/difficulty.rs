//! The difficulty oracle: derives the required mining difficulty from
//! historical block timestamps on a periodic retarget schedule.
//!
//! The mean inter-block mining time is taken over all indexed blocks except
//! genesis, in index order; an interval at or above the outlier cutoff
//! `max_changing_int` is excluded from the sum but the divisor stays the
//! total block count. The difficulty measure itself is a structural
//! placeholder: the character length of a block hash.

use vstd::prelude::*;
use vstd::arithmetic::div_mod::{lemma_div_is_ordered, lemma_div_multiples_vanish, lemma_div_nonincreasing};
use vstd::arithmetic::mul::lemma_mul_inequality;
use vstd::string::StrSliceExecFns;
use crate::block::{Block, BlockV};

verus! {

/// The retargeting parameters, passed explicitly so that several chains with
/// different parameters can coexist.
pub struct DifficultyConfig {
    /// The targeted seconds between blocks; positive.
    pub block_time: i64,
    /// The additive floor term of the retarget formula.
    pub min_mining_difficulty: i64,
    /// The multiplier of the retarget formula; non-negative.
    pub max_changing_diff: i64,
    /// Intervals at or above this cutoff are excluded from the mean's sum.
    pub max_changing_int: i64,
    /// Retarget only every this many blocks, by index; positive.
    pub changing_diff_time: usize,
}

impl DifficultyConfig {
    /// All parameters within the 32-bit range the formula was designed for,
    /// with a positive block time and retarget period.
    pub open spec fn wf(&self) -> bool {
        &&& 0 < self.block_time <= 0x7fff_ffff
        &&& -0x8000_0000 <= self.min_mining_difficulty <= 0x7fff_ffff
        &&& 0 <= self.max_changing_diff <= 0x7fff_ffff
        &&& -0x8000_0000 <= self.max_changing_int <= 0x7fff_ffff
        &&& self.changing_diff_time >= 1
    }

    pub fn new(
        block_time: i64,
        min_mining_difficulty: i64,
        max_changing_diff: i64,
        max_changing_int: i64,
        changing_diff_time: usize,
    ) -> (c: DifficultyConfig)
        requires
            0 < block_time <= 0x7fff_ffff,
            -0x8000_0000 <= min_mining_difficulty <= 0x7fff_ffff,
            0 <= max_changing_diff <= 0x7fff_ffff,
            -0x8000_0000 <= max_changing_int <= 0x7fff_ffff,
            changing_diff_time >= 1,
        ensures
            c.wf(),
            c == (DifficultyConfig {
                block_time,
                min_mining_difficulty,
                max_changing_diff,
                max_changing_int,
                changing_diff_time,
            }),
    {
        DifficultyConfig {
            block_time,
            min_mining_difficulty,
            max_changing_diff,
            max_changing_int,
            changing_diff_time,
        }
    }
}

/// Integer division truncated toward zero (for a positive divisor).
pub open spec fn tdiv(a: int, b: int) -> int
    recommends
        b > 0,
{
    if a >= 0 {
        a / b
    } else {
        -((-a) / b)
    }
}

/// The sum of inter-block intervals over the blocks, in order, starting from
/// `prev_ts`: genesis blocks (index 0) are skipped entirely, and an interval
/// at or above the cutoff `mci` is excluded from the sum, though the block
/// still advances the running previous timestamp.
pub open spec fn interval_sum(blocks: Seq<BlockV>, prev_ts: int, mci: int) -> int
    decreases blocks.len(),
{
    if blocks.len() == 0 {
        0
    } else {
        let b = blocks[0];
        if b.index == 0 {
            interval_sum(blocks.drop_first(), prev_ts, mci)
        } else {
            let nt = b.timestamp - prev_ts;
            (if nt < mci {
                nt
            } else {
                0
            }) + interval_sum(blocks.drop_first(), b.timestamp as int, mci)
        }
    }
}

/// The mean inter-block mining time: the interval sum divided (truncating)
/// by the total block count; the target block time when there are no blocks.
pub open spec fn spec_average_block_time(blocks: Seq<BlockV>, cfg: DifficultyConfig) -> int {
    if blocks.len() == 0 {
        cfg.block_time as int
    } else {
        tdiv(interval_sum(blocks, 0, cfg.max_changing_int as int), blocks.len() as int)
    }
}

/// The retarget formula: `min_mining_difficulty + previous_difficulty *
/// max_changing_diff - max_changing_diff * (mean_block_time / block_time)`,
/// with truncating integer division.
pub open spec fn spec_get_update_diff(
    prev_diff: int,
    blocks: Seq<BlockV>,
    cfg: DifficultyConfig,
) -> int {
    let minus_diff = tdiv(spec_average_block_time(blocks, cfg), cfg.block_time as int);
    cfg.min_mining_difficulty + prev_diff * cfg.max_changing_diff
        - cfg.max_changing_diff * minus_diff
}

/// The difficulty required of a block: retargeted by the formula on a
/// retarget boundary (index divisible by `changing_diff_time`), otherwise
/// held at the difficulty measure of its previous block's hash.
pub open spec fn spec_update_difficulty(
    current: BlockV,
    blocks: Seq<BlockV>,
    cfg: DifficultyConfig,
) -> int {
    let prev_diff = current.previous_hash.len() as int;
    if current.index % (cfg.changing_diff_time as nat) == 0 {
        spec_get_update_diff(prev_diff, blocks, cfg)
    } else {
        prev_diff
    }
}

/// The proof-of-work measure of a block hash: its character count. This is
/// a structural placeholder, not a cryptographic work measure.
pub fn check_proof_of_work(block_hash: &str) -> (d: usize)
    ensures
        d == block_hash@.len(),
{
    block_hash.unicode_len()
}

/// Evaluates the retarget formula over the indexed blocks, in order.
pub fn get_update_diff(
    previous_block_diff: i128,
    previous_blocks: &Vec<Block>,
    config: &DifficultyConfig,
) -> (d: i128)
    requires
        config.wf(),
        -0x1_0000_0000_0000_0000 <= previous_block_diff <= 0x1_0000_0000_0000_0000,
    ensures
        d == spec_get_update_diff(
            previous_block_diff as int,
            previous_blocks@.map_values(|b: Block| b@),
            *config,
        ),
{
    let ghost bs = previous_blocks@.map_values(|b: Block| b@);
    let ghost mci = config.max_changing_int as int;
    let mut pos: u128 = 0;
    let mut neg: u128 = 0;
    let mut previous_block_timestamp: u64 = 0;
    let mut i: usize = 0;
    proof {
        assert(bs.skip(0) =~= bs);
    }
    while i < previous_blocks.len()
        invariant
            i <= bs.len(),
            bs == previous_blocks@.map_values(|b: Block| b@),
            bs.len() == previous_blocks@.len(),
            mci == config.max_changing_int as int,
            config.wf(),
            pos <= i * 0x7fff_ffffu128,
            neg <= i * 0xffff_ffff_ffff_ffffu128,
            interval_sum(bs, 0, mci) == pos - neg
                + interval_sum(bs.skip(i as int), previous_block_timestamp as int, mci),
        decreases bs.len() - i,
    {
        let b = &previous_blocks[i];
        proof {
            assert(bs.skip(i as int)[0] == bs[i as int]);
            assert(bs.skip(i as int).drop_first() =~= bs.skip(i + 1));
            assert(i as int + 1 <= 0x1_0000_0000_0000_0000int);
            assert((i as int + 1) * 0x7fff_ffff == i as int * 0x7fff_ffff + 0x7fff_ffff)
                by (nonlinear_arith);
            assert((i as int + 1) * 0xffff_ffff_ffff_ffff
                == i as int * 0xffff_ffff_ffff_ffff + 0xffff_ffff_ffff_ffff)
                by (nonlinear_arith);
            lemma_mul_inequality(i as int + 1, 0x1_0000_0000_0000_0000int, 0x7fff_ffff);
            lemma_mul_inequality(i as int + 1, 0x1_0000_0000_0000_0000int,
                0xffff_ffff_ffff_ffff);
        }
        if b.index != 0 {
            let nonce_time: i128 = b.timestamp as i128 - previous_block_timestamp as i128;
            if nonce_time < config.max_changing_int as i128 {
                if nonce_time >= 0 {
                    pos = pos + nonce_time as u128;
                } else {
                    neg = neg + ((-nonce_time) as u128);
                }
            }
            previous_block_timestamp = b.timestamp;
        }
        i = i + 1;
    }
    proof {
        assert(bs.skip(bs.len() as int).len() == 0);
        assert(pos <= 0x1_0000_0000_0000_0000u128 * 0x7fff_ffffu128) by {
            lemma_mul_inequality(i as int, 0x1_0000_0000_0000_0000int, 0x7fff_ffff);
        }
        assert(neg <= 0x1_0000_0000_0000_0000u128 * 0xffff_ffff_ffff_ffffu128) by {
            lemma_mul_inequality(i as int, 0x1_0000_0000_0000_0000int, 0xffff_ffff_ffff_ffff);
        }
    }
    let n = previous_blocks.len();
    let average_block_mine: i128 = if n == 0 {
        config.block_time as i128
    } else {
        if pos >= neg {
            ((pos - neg) / (n as u128)) as i128
        } else {
            proof {
                lemma_div_is_ordered((neg - pos) as int, neg as int, n as int);
                lemma_div_is_ordered(neg as int, n as int * 0xffff_ffff_ffff_ffff, n as int);
                lemma_div_multiples_vanish(0xffff_ffff_ffff_ffff, n as int);
                assert(n as int * 0xffff_ffff_ffff_ffff == 0xffff_ffff_ffff_ffff * n as int)
                    by (nonlinear_arith);
                lemma_mul_inequality(i as int, 0x1_0000_0000_0000_0000int,
                    0xffff_ffff_ffff_ffff);
            }
            -(((neg - pos) / (n as u128)) as i128)
        }
    };
    proof {
        if n != 0 {
            if pos >= neg {
                lemma_div_nonincreasing((pos - neg) as int, n as int);
            }
            assert(average_block_mine
                == tdiv(interval_sum(bs, 0, mci), bs.len() as int));
        }
        assert(-0x1_0000_0000_0000_0000 <= average_block_mine
            <= 0x1_0000_0000_0000_0000u128 * 0x7fff_ffffu128);
    }
    let minus_diff: i128 = if average_block_mine >= 0 {
        proof {
            lemma_div_nonincreasing(average_block_mine as int, config.block_time as int);
        }
        ((average_block_mine as u128) / (config.block_time as u128)) as i128
    } else {
        proof {
            lemma_div_nonincreasing((-average_block_mine) as int, config.block_time as int);
        }
        -((((-average_block_mine) as u128) / (config.block_time as u128)) as i128)
    };
    proof {
        assert(minus_diff == tdiv(spec_average_block_time(bs, *config),
            config.block_time as int));
        assert(-0x1_0000_0000_0000_0000 <= minus_diff
            <= 0x1_0000_0000_0000_0000u128 * 0x7fff_ffffu128);
        assert(previous_block_diff * (config.max_changing_diff as i128)
            <= 0x1_0000_0000_0000_0000i128 * 0x8000_0000i128) by (nonlinear_arith)
            requires
                previous_block_diff <= 0x1_0000_0000_0000_0000,
                0 <= config.max_changing_diff <= 0x7fff_ffff,
        ;
        assert(previous_block_diff * (config.max_changing_diff as i128)
            >= -0x1_0000_0000_0000_0000i128 * 0x8000_0000i128) by (nonlinear_arith)
            requires
                previous_block_diff >= -0x1_0000_0000_0000_0000,
                0 <= config.max_changing_diff <= 0x7fff_ffff,
        ;
        assert((config.max_changing_diff as i128) * minus_diff
            <= 0x8000_0000i128 * (0x1_0000_0000_0000_0000i128 * 0x7fff_ffffi128))
            by (nonlinear_arith)
            requires
                0 <= config.max_changing_diff <= 0x7fff_ffff,
                minus_diff <= 0x1_0000_0000_0000_0000u128 * 0x7fff_ffffu128,
        ;
        assert((config.max_changing_diff as i128) * minus_diff
            >= -(0x8000_0000i128 * 0x1_0000_0000_0000_0000i128)) by (nonlinear_arith)
            requires
                0 <= config.max_changing_diff <= 0x7fff_ffff,
                minus_diff >= -0x1_0000_0000_0000_0000,
        ;
    }
    config.min_mining_difficulty as i128
        + previous_block_diff * (config.max_changing_diff as i128)
        - (config.max_changing_diff as i128) * minus_diff
}

/// The difficulty required of `current_block` given the indexed blocks:
/// retargeted on a retarget boundary, otherwise the measure of the previous
/// block's hash.
pub fn update_difficulty(
    current_block: &Block,
    previous_blocks: &Vec<Block>,
    config: &DifficultyConfig,
) -> (d: i128)
    requires
        config.wf(),
    ensures
        d == spec_update_difficulty(
            current_block@,
            previous_blocks@.map_values(|b: Block| b@),
            *config,
        ),
{
    let previous_block_diff = check_proof_of_work(current_block.previous_hash.as_str());
    if current_block.index % config.changing_diff_time == 0 {
        get_update_diff(previous_block_diff as i128, previous_blocks, config)
    } else {
        previous_block_diff as i128
    }
}

} // verus!
