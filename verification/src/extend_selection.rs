//! Extending a selection, through the expansion of a macro where the
//! selection lies in the arguments of one.

use vstd::prelude::*;
use crate::base::TextRange;

verus! {

/// The expansion of a macro call, as far as ranges go: pairs of a range of
/// the source and the range of the expansion that it became.
pub struct MacroExpansion {
    pub ranges_map: Vec<(TextRange, TextRange)>,
}

/// `range`, as far from the start of `to` as it is from the start of
/// `from`; nothing where that does not fit in 32 bits.
pub open spec fn shifted(range: TextRange, from: TextRange, to: TextRange) -> Option<TextRange> {
    if range.end - from.start + to.start <= u32::MAX {
        Some(
            TextRange {
                start: (range.start - from.start + to.start) as u32,
                end: (range.end - from.start + to.start) as u32,
            },
        )
    } else {
        None
    }
}

/// What `range` maps to through the first pair from `from` on whose first
/// (or, backwards, second) range covers it.
pub open spec fn mapped(pairs: Seq<(TextRange, TextRange)>, range: TextRange, forward: bool, from: int) -> Option<
    TextRange,
>
    decreases pairs.len() - from,
{
    if from < 0 || from >= pairs.len() {
        None
    } else {
        let (source, target) = if forward {
            pairs[from]
        } else {
            (pairs[from].1, pairs[from].0)
        };
        if range.wf() && source.spec_covers(range) {
            shifted(range, source, target)
        } else {
            mapped(pairs, range, forward, from + 1)
        }
    }
}

/// Moves `range` from inside `from` to the same place inside `to`.
fn shift(range: TextRange, from: TextRange, to: TextRange) -> (r: Option<TextRange>)
    requires
        range.wf(),
        from.spec_covers(range),
    ensures
        r == shifted(range, from, to),
{
    let start = range.start - from.start;
    let end = range.end - from.start;
    match (start.checked_add(to.start), end.checked_add(to.start)) {
        (Some(s), Some(e)) => Some(TextRange { start: s, end: e }),
        _ => None,
    }
}

impl MacroExpansion {
    /// The expansion with the given pairs of ranges.
    pub fn new(ranges_map: Vec<(TextRange, TextRange)>) -> (r: MacroExpansion)
        ensures
            r.ranges_map == ranges_map,
    {
        MacroExpansion { ranges_map }
    }

    /// Maps a range through the pairs, in one direction.
    fn map_range(&self, range: TextRange, forward: bool) -> (r: Option<TextRange>)
        ensures
            r == mapped(self.ranges_map@, range, forward, 0),
    {
        let mut i: usize = 0;
        while i < self.ranges_map.len()
            invariant
                i <= self.ranges_map.len(),
                mapped(self.ranges_map@, range, forward, 0) == mapped(
                    self.ranges_map@,
                    range,
                    forward,
                    i as int,
                ),
            decreases self.ranges_map.len() - i,
        {
            let (source, target) = if forward {
                self.ranges_map[i]
            } else {
                (self.ranges_map[i].1, self.ranges_map[i].0)
            };
            if range.start <= range.end && source.covers(range) {
                return shift(range, source, target);
            }
            i = i + 1;
        }
        None
    }

    /// The range of the expansion that a range of the source became: through
    /// the first pair whose source range covers it.
    pub fn map_range_forward(&self, src_range: TextRange) -> (r: Option<TextRange>)
        ensures
            r == mapped(self.ranges_map@, src_range, true, 0),
    {
        self.map_range(src_range, true)
    }

    /// The range of the source that a range of the expansion came from:
    /// through the first pair whose expansion range covers it.
    pub fn map_range_back(&self, tgt_range: TextRange) -> (r: Option<TextRange>)
        ensures
            r == mapped(self.ranges_map@, tgt_range, false, 0),
    {
        self.map_range(tgt_range, false)
    }
}

/// The range inside the expansion that stands for the selection; nothing
/// without an expansion, or where the selection does not map into it.
pub open spec fn spec_macro_target(expansion: Option<MacroExpansion>, range: TextRange) -> Option<TextRange> {
    match expansion {
        Some(exp) => mapped(exp.ranges_map@, range, true, 0),
        None => None,
    }
}

/// The range inside the expansion that stands for the selection: what is to
/// be extended there.
pub fn macro_target(expansion: Option<&MacroExpansion>, range: TextRange) -> (r: Option<TextRange>)
    ensures
        r == spec_macro_target(
            match expansion {
                Some(exp) => Some(*exp),
                None => None,
            },
            range,
        ),
{
    match expansion {
        Some(exp) => exp.map_range_forward(range),
        None => None,
    }
}

/// The extended selection: what the selection was extended to inside the
/// expansion, mapped back to the source; else what it was extended to in
/// the file; else the selection itself.
pub open spec fn spec_extend_selection(
    range: TextRange,
    expansion: Option<MacroExpansion>,
    extended_in_macro: Option<TextRange>,
    extended: Option<TextRange>,
) -> TextRange {
    let through_macro = match (expansion, extended_in_macro) {
        (Some(exp), Some(dst)) => mapped(exp.ranges_map@, dst, false, 0),
        _ => None,
    };
    match through_macro {
        Some(src) => src,
        None => match extended {
            Some(r) => r,
            None => range,
        },
    }
}

/// Extends a selection. `extended_in_macro` is what the range given by
/// `macro_target` was extended to inside the expansion; `extended` is what
/// the selection was extended to in the file itself.
pub fn extend_selection(
    range: TextRange,
    expansion: Option<&MacroExpansion>,
    extended_in_macro: Option<TextRange>,
    extended: Option<TextRange>,
) -> (r: TextRange)
    ensures
        r == spec_extend_selection(
            range,
            match expansion {
                Some(exp) => Some(*exp),
                None => None,
            },
            extended_in_macro,
            extended,
        ),
{
    match (expansion, extended_in_macro) {
        (Some(exp), Some(dst)) => {
            match exp.map_range_back(dst) {
                Some(src) => {
                    return src;
                },
                None => {},
            }
        },
        _ => {},
    }
    match extended {
        Some(r) => r,
        None => range,
    }
}

} // verus!
