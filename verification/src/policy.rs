//! Decide what to do with each block.
use vstd::prelude::*;
use crate::prose::ProseAnalysis;
use crate::types::{Action, CommentBlock, Config, Mode};

verus! {

/// Fewer words per prose line than the minimum density (given in thousandths). A block without
/// prose lines has density 0.
pub open spec fn low_density(word_count: nat, lines: nat, min_density_milli: nat) -> bool {
    if lines == 0 {
        0 < min_density_milli
    } else {
        word_count * 1000 < min_density_milli * lines
    }
}

/// What the rules decide: `None` to keep, `Some(false)` to delete, `Some(true)` to reduce.
pub open spec fn spec_decision(
    block: CommentBlock,
    analysis: ProseAnalysis,
    structural: bool,
    cfg: Config,
) -> Option<bool> {
    if structural {
        None
    } else if cfg.mode == Mode::Delete {
        Some(false)
    } else if !block.own_line || block.code_after {
        None
    } else if analysis.lines@.len() < cfg.min_lines {
        None
    } else if low_density(
        analysis.word_count as nat,
        analysis.lines@.len(),
        cfg.min_density_milli as nat,
    ) {
        None
    } else if analysis.code_like {
        None
    } else {
        Some(true)
    }
}

/// Rules:
/// - structural => Keep (both modes)
/// - Delete mode => Delete
/// - Reduce mode: keep trailing/inline comments (not own_line or code_after), keep blocks with
///   fewer than `min_lines` prose lines, keep low-density blocks (words per line below the
///   minimum density), keep code_like blocks; otherwise Reduce { prose: analysis.text }.
pub fn decide(block: &CommentBlock, analysis: &ProseAnalysis, structural: bool, cfg: &Config) -> (r:
    Action)
    ensures
        match spec_decision(*block, *analysis, structural, *cfg) {
            None => r is Keep,
            Some(false) => r is Delete,
            Some(true) => r matches Action::Reduce { prose } && prose@ == analysis.text@,
        },
{
    if structural {
        return Action::Keep;
    }
    if cfg.mode == Mode::Delete {
        return Action::Delete;
    }
    if !block.own_line || block.code_after {
        return Action::Keep;
    }
    let n = analysis.lines.len();
    if n < cfg.min_lines {
        return Action::Keep;
    }
    let low = if n == 0 {
        0 < cfg.min_density_milli
    } else {
        let md = cfg.min_density_milli as u128;
        let nn = n as u128;
        assert(md * nn < 0x1_0000_0000_0000_0000_0000_0000_0000_0000) by (nonlinear_arith)
            requires
                md < 0x1_0000_0000_0000_0000,
                nn < 0x1_0000_0000_0000_0000,
        ;
        (analysis.word_count as u128) * 1000 < md * nn
    };
    if low {
        return Action::Keep;
    }
    if analysis.code_like {
        return Action::Keep;
    }
    Action::Reduce { prose: crate::text::string_of(&crate::text::chars_of(analysis.text.as_str())) }
}

/// Structural blocks are kept in both modes.
pub proof fn law_structural_blocks_are_kept(
    block: CommentBlock,
    analysis: ProseAnalysis,
    cfg: Config,
)
    ensures
        spec_decision(block, analysis, true, cfg) is None,
{
}

/// Delete mode removes every block that is not structural.
pub proof fn law_delete_mode_deletes_the_rest(
    block: CommentBlock,
    analysis: ProseAnalysis,
    cfg: Config,
)
    requires
        cfg.mode == Mode::Delete,
    ensures
        spec_decision(block, analysis, false, cfg) == Some(false),
{
}

/// Only a non-structural, own-line block without code after it, with at least `min_lines`
/// prose lines at or above the minimum density and not mostly code, is ever reduced, and only
/// in reduce mode; reduce mode never deletes.
pub proof fn law_only_dense_prose_is_reduced(
    block: CommentBlock,
    analysis: ProseAnalysis,
    structural: bool,
    cfg: Config,
)
    requires
        cfg.mode == Mode::Reduce,
    ensures
        spec_decision(block, analysis, structural, cfg) != Some(false),
        spec_decision(block, analysis, structural, cfg) == Some(true) <==> {
            &&& !structural
            &&& block.own_line && !block.code_after
            &&& analysis.lines@.len() >= cfg.min_lines
            &&& !low_density(
                analysis.word_count as nat,
                analysis.lines@.len(),
                cfg.min_density_milli as nat,
            )
            &&& !analysis.code_like
        },
{
}

} // verus!
