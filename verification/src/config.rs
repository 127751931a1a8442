use vstd::prelude::*;

verus! {

/// Which of a file's timestamps is used for the age comparison.
#[derive(Debug, PartialEq, Eq, Structural, Clone, Copy)]
pub enum FileDateType {
    Created,
    Modified,
    Accessed,
}

/// Everything one run needs, fixed before the first filesystem action.
///
/// Paths are sequences of path components, each component the bytes of
/// one segment. `cutoff` is an absolute timestamp in nanoseconds since
/// the epoch: the moment the run started minus the configured age.
pub struct RunConfig {
    /// Files whose every selected timestamp is at or before this moment
    /// are eligible for deletion. Nanoseconds relative to the epoch,
    /// negative for moments before it.
    pub cutoff: i128,
    /// Which timestamps take part in the age comparison. Never empty.
    pub date_types: Vec<FileDateType>,
    /// Paths excluded, together with everything beneath them.
    pub ignored: Vec<Vec<Vec<u8>>>,
    /// Entries closer to a target root than this depth are out of scope.
    pub min_depth: Option<usize>,
    /// Entries deeper than this are out of scope.
    pub max_depth: Option<usize>,
    /// Whether the traversal descends into directory symlinks.
    pub follow_symbolic_links: bool,
    /// Whether directories left empty are removed afterwards.
    pub delete_empty_folders: bool,
    /// Whether actions are only reported, never performed.
    pub dry_run: bool,
}

impl RunConfig {
    /// The configuration invariant: at least one date type is selected.
    pub open spec fn wf(self) -> bool {
        self.date_types@.len() > 0
    }
}

/// ASCII whitespace, as trimmed from a date-type token.
pub open spec fn is_space_byte(b: u8) -> bool {
    b == 32 || (9 <= b && b <= 13)
}

/// ASCII lowercasing of one byte; other bytes pass through.
pub open spec fn lower_byte(b: u8) -> u8 {
    if 65 <= b && b <= 90 {
        (b + 32) as u8
    } else {
        b
    }
}

/// The token with leading whitespace removed.
pub open spec fn trim_front(s: Seq<u8>) -> Seq<u8>
    decreases s.len(),
{
    if s.len() > 0 && is_space_byte(s[0]) {
        trim_front(s.drop_first())
    } else {
        s
    }
}

/// The token with trailing whitespace removed.
pub open spec fn trim_back(s: Seq<u8>) -> Seq<u8>
    decreases s.len(),
{
    if s.len() > 0 && is_space_byte(s.last()) {
        trim_back(s.drop_last())
    } else {
        s
    }
}

/// The token as compared: whitespace trimmed from both ends, then
/// lowercased byte by byte.
pub open spec fn canonical_token(s: Seq<u8>) -> Seq<u8> {
    trim_back(trim_front(s)).map(|i: int, b: u8| lower_byte(b))
}

/// The byte spelling of "created".
pub open spec fn lit_created() -> Seq<u8> {
    seq![99u8, 114u8, 101u8, 97u8, 116u8, 101u8, 100u8]
}

/// The byte spelling of "modified".
pub open spec fn lit_modified() -> Seq<u8> {
    seq![109u8, 111u8, 100u8, 105u8, 102u8, 105u8, 101u8, 100u8]
}

/// The byte spelling of "accessed".
pub open spec fn lit_accessed() -> Seq<u8> {
    seq![97u8, 99u8, 99u8, 101u8, 115u8, 115u8, 101u8, 100u8]
}

/// What a date-type token means: after trimming and lowercasing, one of
/// "c", "created", "m", "modified", "a", "accessed"; anything else is
/// rejected.
pub open spec fn spec_parse_date_type(s: Seq<u8>) -> Option<FileDateType> {
    let t = canonical_token(s);
    if t == seq![99u8] || t == lit_created() {
        Some(FileDateType::Created)
    } else if t == seq![109u8] || t == lit_modified() {
        Some(FileDateType::Modified)
    } else if t == seq![97u8] || t == lit_accessed() {
        Some(FileDateType::Accessed)
    } else {
        None
    }
}

/// A misconfiguration found before any filesystem action. Fatal: the run
/// aborts with no side effects.
#[derive(Debug, PartialEq, Eq, Structural, Clone, Copy)]
pub enum ConfigError {
    /// The target folder at this position does not exist.
    MissingTargetFolder(usize),
    /// The ignored path at this position does not exist.
    MissingIgnoredPath(usize),
    /// Both depth bounds are given and the minimum exceeds the maximum.
    MinDepthExceedsMaxDepth,
}

/// True when both depth bounds are given and in the wrong order.
pub open spec fn depth_bounds_conflict(min_depth: Option<usize>, max_depth: Option<usize>) -> bool {
    min_depth matches Some(mn) && max_depth matches Some(mx) && mn > mx
}

/// Pre-flight validation. The caller reports, for each target folder and
/// each ignored path, whether it exists; this decides whether the run may
/// proceed, and otherwise which misconfiguration is reported first:
/// missing target folders in order, then missing ignored paths in order,
/// then conflicting depth bounds.
pub fn validate_arguments(
    targets_exist: &Vec<bool>,
    ignored_exist: &Vec<bool>,
    min_depth: Option<usize>,
    max_depth: Option<usize>,
) -> (r: Result<(), ConfigError>)
    ensures
        r is Ok <==> {
            &&& forall|i: int| 0 <= i < targets_exist@.len() ==> targets_exist@[i]
            &&& forall|i: int| 0 <= i < ignored_exist@.len() ==> ignored_exist@[i]
            &&& !depth_bounds_conflict(min_depth, max_depth)
        },
        r matches Err(ConfigError::MissingTargetFolder(i)) ==> {
            &&& i < targets_exist@.len()
            &&& !targets_exist@[i as int]
            &&& forall|j: int| 0 <= j < i ==> targets_exist@[j]
        },
        r matches Err(ConfigError::MissingIgnoredPath(i)) ==> {
            &&& forall|j: int| 0 <= j < targets_exist@.len() ==> targets_exist@[j]
            &&& i < ignored_exist@.len()
            &&& !ignored_exist@[i as int]
            &&& forall|j: int| 0 <= j < i ==> ignored_exist@[j]
        },
        r matches Err(ConfigError::MinDepthExceedsMaxDepth) ==> {
            &&& forall|j: int| 0 <= j < targets_exist@.len() ==> targets_exist@[j]
            &&& forall|j: int| 0 <= j < ignored_exist@.len() ==> ignored_exist@[j]
            &&& depth_bounds_conflict(min_depth, max_depth)
        },
{
    let n_targets = targets_exist.len();
    for i in 0..n_targets
        invariant
            n_targets == targets_exist@.len(),
            forall|j: int| 0 <= j < i ==> targets_exist@[j],
    {
        if !targets_exist[i] {
            return Err(ConfigError::MissingTargetFolder(i));
        }
    }
    let n_ignored = ignored_exist.len();
    for i in 0..n_ignored
        invariant
            n_ignored == ignored_exist@.len(),
            forall|j: int| 0 <= j < targets_exist@.len() ==> targets_exist@[j],
            forall|j: int| 0 <= j < i ==> ignored_exist@[j],
    {
        if !ignored_exist[i] {
            return Err(ConfigError::MissingIgnoredPath(i));
        }
    }
    if let (Some(mn), Some(mx)) = (min_depth, max_depth) {
        if mn > mx {
            return Err(ConfigError::MinDepthExceedsMaxDepth);
        }
    }
    Ok(())
}

/// When the first `i` bytes are whitespace and the next one is not,
/// trimming the front drops exactly those `i` bytes.
proof fn lemma_trim_front_skip(s: Seq<u8>, i: int)
    requires
        0 <= i <= s.len(),
        forall|k: int| 0 <= k < i ==> is_space_byte(s[k]),
        i < s.len() ==> !is_space_byte(s[i]),
    ensures
        trim_front(s) == s.skip(i),
    decreases i,
{
    if i == 0 {
        assert(s.skip(0) =~= s);
    } else {
        lemma_trim_front_skip(s.drop_first(), i - 1);
        assert(s.drop_first().skip(i - 1) =~= s.skip(i));
    }
}

/// When every byte from `e` on is whitespace and the one before `e` is
/// not, trimming the back keeps exactly the first `e` bytes.
proof fn lemma_trim_back_take(s: Seq<u8>, e: int)
    requires
        0 <= e <= s.len(),
        forall|k: int| e <= k < s.len() ==> is_space_byte(s[k]),
        e > 0 ==> !is_space_byte(s[e - 1]),
    ensures
        trim_back(s) == s.take(e),
    decreases s.len(),
{
    if e == s.len() {
        assert(s.take(e) =~= s);
    } else {
        lemma_trim_back_take(s.drop_last(), e);
        assert(s.drop_last().take(e) =~= s.take(e));
    }
}

/// Decides what a date-type token means, by the rule of
/// `spec_parse_date_type`. Whitespace here is the ASCII kind, and the
/// lowercasing likewise touches ASCII letters only; a caller whose
/// tokens may carry other Unicode whitespace trims them first, as the
/// command line does.
pub fn file_date_type_parser(value: &[u8]) -> (r: Option<FileDateType>)
    ensures
        r == spec_parse_date_type(value@),
{
    let n = value.len();
    let mut start: usize = 0;
    while start < n && (value[start] == 32 || (9 <= value[start] && value[start] <= 13))
        invariant
            start <= n,
            n == value@.len(),
            forall|k: int| 0 <= k < start ==> is_space_byte(value@[k]),
        decreases n - start,
    {
        start = start + 1;
    }
    let mut end: usize = n;
    while end > start && (value[end - 1] == 32 || (9 <= value[end - 1] && value[end - 1] <= 13))
        invariant
            start <= end <= n,
            n == value@.len(),
            forall|k: int| end <= k < n ==> is_space_byte(value@[k]),
        decreases end,
    {
        end = end - 1;
    }
    let mut tok: Vec<u8> = Vec::new();
    for k in start..end
        invariant
            start <= end <= n,
            n == value@.len(),
            tok@.len() == k - start,
            forall|j: int| 0 <= j < tok@.len() ==> tok@[j] == lower_byte(value@[start + j]),
    {
        let b = value[k];
        let lowered: u8 = if 65 <= b && b <= 90 {
            b + 32
        } else {
            b
        };
        tok.push(lowered);
    }
    proof {
        lemma_trim_front_skip(value@, start as int);
        let t = value@.skip(start as int);
        assert forall|k: int| end - start <= k < t.len() implies is_space_byte(t[k]) by {
            assert(t[k] == value@[k + start]);
        }
        lemma_trim_back_take(t, end - start);
        assert(t.take(end - start) =~= value@.subrange(start as int, end as int));
        assert(tok@ =~= canonical_token(value@));
    }
    parse_canonical(&tok)
}

/// Maps an already canonical token to its date type.
fn parse_canonical(tok: &Vec<u8>) -> (r: Option<FileDateType>)
    ensures
        r == {
            let t = tok@;
            if t == seq![99u8] || t == lit_created() {
                Some(FileDateType::Created)
            } else if t == seq![109u8] || t == lit_modified() {
                Some(FileDateType::Modified)
            } else if t == seq![97u8] || t == lit_accessed() {
                Some(FileDateType::Accessed)
            } else {
                None
            }
        },
{
    if tok.len() == 1 {
        if tok[0] == 99 {
            proof {
                assert(tok@ =~= seq![99u8]);
            }
            Some(FileDateType::Created)
        } else if tok[0] == 109 {
            proof {
                assert(tok@ =~= seq![109u8]);
            }
            Some(FileDateType::Modified)
        } else if tok[0] == 97 {
            proof {
                assert(tok@ =~= seq![97u8]);
            }
            Some(FileDateType::Accessed)
        } else {
            None
        }
    } else if tok.len() == 7 {
        if tok[0] == 99 && tok[1] == 114 && tok[2] == 101 && tok[3] == 97 && tok[4] == 116
            && tok[5] == 101 && tok[6] == 100 {
            proof {
                assert(tok@ =~= lit_created());
            }
            Some(FileDateType::Created)
        } else {
            None
        }
    } else if tok.len() == 8 {
        if tok[0] == 109 && tok[1] == 111 && tok[2] == 100 && tok[3] == 105 && tok[4] == 102
            && tok[5] == 105 && tok[6] == 101 && tok[7] == 100 {
            proof {
                assert(tok@ =~= lit_modified());
            }
            Some(FileDateType::Modified)
        } else if tok[0] == 97 && tok[1] == 99 && tok[2] == 99 && tok[3] == 101 && tok[4] == 115
            && tok[5] == 115 && tok[6] == 101 && tok[7] == 100 {
            proof {
                assert(tok@ =~= lit_accessed());
            }
            Some(FileDateType::Accessed)
        } else {
            None
        }
    } else {
        None
    }
}

} // verus!
