//! Command-line settings and the list of visualizations they select.

use vstd::prelude::*;

use crate::text::{
    chars_of, eq_ignore_ascii_case, eq_ignore_ascii_case_exec, lowercase, split_on, split_ranges,
    to_lowercase, trim, trim_range,
};

verus! {

/// Seconds each visualization is shown when no duration is given.
pub const DEFAULT_DURATION_SECS: u64 = 60;

/// Program settings: which visualizations to show and for how long.
pub struct Args {
    /// Comma-separated visualization names, or "all".
    pub viz: String,
    /// Seconds each visualization is shown before cycling to the next.
    pub duration: u64,
}

/// The names selected by a `--viz` value: none (meaning all) for "all" in
/// any ASCII case, otherwise each comma-separated piece trimmed and
/// lowercased.
pub open spec fn selected_names(viz: Seq<char>) -> Seq<Seq<char>> {
    if eq_ignore_ascii_case(viz, seq!['a', 'l', 'l']) {
        Seq::empty()
    } else {
        split_on(viz, ',').map_values(|p: Seq<char>| lowercase(trim(p)))
    }
}

impl Args {
    /// The requested visualization names; empty means "use all".
    pub fn viz_names(&self) -> (names: Vec<String>)
        ensures
            names@.len() == selected_names(self.viz@).len(),
            forall|i: int|
                0 <= i < names@.len() ==> #[trigger] names@[i]@ == selected_names(self.viz@)[i],
    {
        let all = "all";
        proof {
            reveal_strlit("all");
            assert(all@ =~= seq!['a', 'l', 'l']);
        }
        if eq_ignore_ascii_case_exec(self.viz.as_str(), all) {
            return Vec::new();
        }
        let chars = chars_of(self.viz.as_str());
        let pieces = split_ranges(&chars, ',');
        let ghost parts = split_on(self.viz@, ',');
        let mut names: Vec<String> = Vec::new();
        let mut k: usize = 0;
        while k < pieces.len()
            invariant
                chars@ == self.viz@,
                parts == split_on(self.viz@, ','),
                pieces@.len() == parts.len(),
                forall|j: int|
                    0 <= j < pieces@.len() ==> #[trigger] pieces@[j].0 <= pieces@[j].1
                        <= chars@.len() && chars@.subrange(pieces@[j].0 as int, pieces@[j].1 as int)
                        == parts[j],
                k <= pieces@.len(),
                names@.len() == k,
                forall|j: int| 0 <= j < k ==> #[trigger] names@[j]@ == lowercase(trim(parts[j])),
                !eq_ignore_ascii_case(self.viz@, seq!['a', 'l', 'l']),
            decreases pieces@.len() - k,
        {
            let (from, to) = pieces[k];
            let (a, b) = trim_range(&chars, from, to);
            let piece = self.viz.as_str().substring_char(a, b);
            names.push(to_lowercase(piece));
            k = k + 1;
        }
        names
    }
}

} // verus!
