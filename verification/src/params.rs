//! The parameters of requests and what they ask for.

use vstd::prelude::*;
use vstd::string::{StrSliceExecFns, StringExecFns};
use vstd::utf8::encode_utf8;
use crate::dir::{Dir, Tree};
use crate::machine::WalkState;
use crate::path::path_bytes;
use crate::volumes::{roots_from, volume_roots, volumes_tree, VolumesError};
use crate::views::lemma_bytes;
use crate::walker::Walker;

verus! {

/// The depth of a listing that names none: the entry and one level of
/// children.
pub const DEFAULT_DEPTH: usize = 1;

/// The parameters of a request for a listing, as they were sent.
#[derive(Debug, PartialEq, Eq)]
pub struct FileDirParams {
    /// The path to list; the mounted volumes where there is none.
    pub path: Option<String>,
    /// How many levels to go down; [`DEFAULT_DEPTH`] where there is none.
    pub depth: Option<isize>,
}

/// The parameter of a request for a file: the directory that files are
/// served from.
#[derive(Debug, PartialEq, Eq)]
pub struct FileParams {
    pub drive_path: String,
}

/// The parameter of a greeting.
#[derive(Debug, PartialEq, Eq)]
pub struct UserParams {
    pub username: String,
}

/// What a listing is of.
#[derive(Debug, PartialEq, Eq)]
pub enum Target {
    /// The mounted volumes, under an entry that stands for them all.
    Volumes,
    /// One path.
    Path(String),
}

/// The mathematical value of a [`Target`].
pub enum TargetModel {
    Volumes,
    Path(Seq<char>),
}

impl DeepView for Target {
    type V = TargetModel;

    open spec fn deep_view(&self) -> TargetModel {
        match self {
            Target::Volumes => TargetModel::Volumes,
            Target::Path(path) => TargetModel::Path(path@),
        }
    }
}

/// A listing to make: of what, and how many levels down.
#[derive(Debug, PartialEq, Eq)]
pub struct Plan {
    pub target: Target,
    pub depth: usize,
}

/// Why parameters are refused.
#[derive(Debug, PartialEq, Eq)]
pub enum ParamError {
    /// The depth is below zero.
    NegativeDepth,
}

/// Whether a character is a decimal digit.
pub open spec fn is_digit(c: char) -> bool {
    '0' <= c <= '9'
}

/// Whether a text is made of decimal digits alone.
pub open spec fn all_digits(text: Seq<char>) -> bool {
    forall|i: int| 0 <= i < text.len() ==> is_digit(#[trigger] text[i])
}

/// The number that decimal digits write.
pub open spec fn digits_value(digits: Seq<char>) -> int
    decreases digits.len(),
{
    if digits.len() == 0 {
        0
    } else {
        digits_value(digits.drop_last()) * 10 + (digits.last() as int - '0' as int)
    }
}

/// The integer that a text writes: decimal digits, at least one, after at
/// most one sign. Any other text writes none.
pub open spec fn integer_of(text: Seq<char>) -> Option<int> {
    let signed = text.len() > 0 && (text[0] == '-' || text[0] == '+');
    let digits = if signed {
        text.skip(1)
    } else {
        text
    };
    if digits.len() > 0 && all_digits(digits) {
        if text[0] == '-' {
            Some(-digits_value(digits))
        } else {
            Some(digits_value(digits))
        }
    } else {
        None
    }
}

/// The depth that a text writes: the integer it writes, where it writes one
/// and the integer fits the machine's word. Any other text writes no depth.
pub open spec fn depth_of_text(text: Seq<char>) -> Option<isize> {
    match integer_of(text) {
        Some(value) => if isize::MIN <= value <= isize::MAX {
            Some(value as isize)
        } else {
            None
        },
        None => None,
    }
}

/// Digits write a number that is not negative and no less than what any
/// of their beginnings writes.
pub proof fn lemma_digits_grow(digits: Seq<char>, upto: int)
    requires
        all_digits(digits),
        0 <= upto <= digits.len(),
    ensures
        0 <= digits_value(digits.take(upto)) <= digits_value(digits),
    decreases digits.len() - upto,
{
    lemma_digits_not_negative(digits.take(upto));
    if upto < digits.len() {
        lemma_digits_grow(digits, upto + 1);
        assert(digits.take(upto + 1).drop_last() =~= digits.take(upto));
        assert(is_digit(digits[upto]));
    } else {
        assert(digits.take(upto) =~= digits);
    }
}

/// Digits write a number that is not negative.
pub proof fn lemma_digits_not_negative(digits: Seq<char>)
    requires
        all_digits(digits),
    ensures
        0 <= digits_value(digits),
    decreases digits.len(),
{
    if digits.len() > 0 {
        assert(is_digit(digits[digits.len() - 1]));
        lemma_digits_not_negative(digits.drop_last());
    }
}

/// The depth that `text` writes, if it writes one.
pub fn depth_from_text(text: &str) -> (depth: Option<isize>)
    ensures
        depth == depth_of_text(text@),
{
    let len = text.unicode_len();
    if len == 0 {
        return None;
    }
    let first = text.get_char(0);
    let negative = first == '-';
    let start: usize = if first == '-' || first == '+' {
        1
    } else {
        0
    };
    if start == len {
        return None;
    }
    let ghost digits = if start == 1 {
        text@.skip(1)
    } else {
        text@
    };
    let limit: i128 = if negative {
        -(isize::MIN as i128)
    } else {
        isize::MAX as i128
    };
    let mut value: i128 = 0;
    let mut i: usize = start;
    while i < len
        invariant
            start <= i <= len,
            0 < len == text@.len(),
            start <= 1,
            start == 1 <==> text@[0] == '-' || text@[0] == '+',
            negative == (text@[0] == '-'),
            digits == if start == 1 {
                text@.skip(1)
            } else {
                text@
            },
            limit == if negative {
                -(isize::MIN as int)
            } else {
                isize::MAX as int
            },
            digits.len() == len - start,
            forall|k: int| 0 <= k < digits.len() ==> digits[k] == text@[k + start],
            all_digits(digits.take(i - start)),
            value == digits_value(digits.take(i - start)),
            0 <= value <= limit,
            0 <= limit <= 0x8000_0000_0000_0000,
        decreases len - i,
    {
        let c = text.get_char(i);
        proof {
            assert(digits.take(i - start + 1).drop_last() =~= digits.take(i - start));
            assert(digits.take(i - start + 1).last() == c);
        }
        if !('0' <= c && c <= '9') {
            proof {
                assert(!is_digit(digits[i - start]));
            }
            return None;
        }
        value = value * 10 + (c as u32 - '0' as u32) as i128;
        if value > limit {
            proof {
                if all_digits(digits) {
                    lemma_digits_grow(digits, i - start + 1);
                }
            }
            return None;
        }
        i += 1;
    }
    proof {
        assert(digits.take(len - start) =~= digits);
    }
    if negative {
        Some((-value) as isize)
    } else {
        Some(value as isize)
    }
}

/// The target that a path parameter stands for.
pub open spec fn target_of(path: Option<String>) -> TargetModel {
    match path {
        Some(path) => TargetModel::Path(path@),
        None => TargetModel::Volumes,
    }
}

/// The depth that a depth parameter stands for, where it stands for one.
pub open spec fn depth_of(depth: Option<isize>) -> Option<nat> {
    match depth {
        Some(depth) => if depth < 0 {
            None
        } else {
            Some(depth as nat)
        },
        None => Some(DEFAULT_DEPTH as nat),
    }
}

/// The roots that a walk for `target` starts from, given the roots of the
/// volumes.
pub open spec fn roots_of(target: TargetModel, volumes: Seq<Seq<u8>>) -> Seq<Seq<u8>> {
    match target {
        TargetModel::Volumes => volumes,
        TargetModel::Path(path) => seq![encode_utf8(path)],
    }
}

/// The roots that a walk for `target` starts from, given what the platform
/// said of the volumes; none where the listing is of the volumes and the
/// platform cannot list them.
pub open spec fn opening(target: TargetModel, supported: bool, mounts: Seq<Seq<u8>>) -> Option<
    Seq<Seq<u8>>,
> {
    match target {
        TargetModel::Volumes => volume_roots(supported, mounts),
        TargetModel::Path(_) => Some(roots_of(target, mounts)),
    }
}

/// The entry that answers a listing of `target`, given the trees of its
/// roots: above the volumes the entry that stands for them; for a path its
/// own tree, which is the only one.
pub open spec fn answer_of(target: TargetModel, trees: Seq<Tree>) -> Option<Tree> {
    match target {
        TargetModel::Volumes => Some(volumes_tree(trees)),
        TargetModel::Path(_) => if trees.len() == 1 {
            Some(trees[0])
        } else {
            None
        },
    }
}

impl FileDirParams {
    /// The parameters as they are read from the text that was sent: the
    /// path as it is, and the depth that the text writes. A depth that is
    /// missing or that writes no depth counts as not given.
    pub fn read(path: Option<String>, depth: Option<String>) -> (params: FileDirParams)
        ensures
            params.path == path,
            params.depth == match depth {
                Some(text) => depth_of_text(text@),
                None => None,
            },
    {
        let depth = match &depth {
            Some(text) => depth_from_text(text.as_str()),
            None => None,
        };
        FileDirParams { path, depth }
    }

    /// The listing that the parameters ask for. A depth below zero is
    /// refused; a missing depth is [`DEFAULT_DEPTH`]; a missing path asks
    /// for the volumes.
    pub fn plan(self) -> (result: Result<Plan, ParamError>)
        ensures
            match depth_of(self.depth) {
                Some(depth) => result matches Ok(plan) && plan.depth == depth
                    && plan.target.deep_view() == target_of(self.path),
                None => result == Err::<Plan, ParamError>(ParamError::NegativeDepth),
            },
    {
        let depth = match self.depth {
            Some(depth) => {
                if depth < 0 {
                    return Err(ParamError::NegativeDepth);
                }
                depth as usize
            },
            None => DEFAULT_DEPTH,
        };
        let target = match self.path {
            Some(path) => Target::Path(path),
            None => Target::Volumes,
        };
        Ok(Plan { target, depth })
    }
}

impl Plan {
    /// The walker for this listing, given the roots of the volumes. They
    /// are left aside where the listing is of a path.
    pub fn begin(&self, volumes: Vec<Vec<u8>>) -> (walker: Walker)
        ensures
            walker@ == WalkState::start(
                roots_of(self.target.deep_view(), volumes.deep_view()),
                self.depth as nat,
            ),
    {
        match &self.target {
            Target::Volumes => Walker::start(volumes, self.depth),
            Target::Path(path) => {
                let root = path_bytes(path.as_str());
                let mut roots: Vec<Vec<u8>> = Vec::new();
                roots.push(root);
                proof {
                    lemma_bytes(root);
                    assert(roots.deep_view() =~= seq![encode_utf8(path@)]);
                }
                Walker::start(roots, self.depth)
            },
        }
    }

    /// Whether this listing is of the volumes, so that the mount points
    /// have to be known before it starts.
    pub fn needs_volumes(&self) -> (needed: bool)
        ensures
            needed == (self.target is Volumes),
    {
        match &self.target {
            Target::Volumes => true,
            Target::Path(_) => false,
        }
    }

    /// The walker for this listing, given what the platform said of the
    /// volumes: whether it can list them at all, and the mount points it
    /// reported. A listing of a path always starts, and from the path
    /// alone. A listing of the volumes starts from every mount point, at
    /// the full depth, and does not start where the platform cannot list
    /// volumes.
    pub fn start(&self, supported: bool, mounts: Vec<Vec<u8>>) -> (result: Result<
        Walker,
        VolumesError,
    >)
        ensures
            match opening(self.target.deep_view(), supported, mounts.deep_view()) {
                Some(roots) => result matches Ok(walker) && walker@ == WalkState::start(
                    roots,
                    self.depth as nat,
                ),
                None => result matches Err(VolumesError::Unavailable),
            },
    {
        match &self.target {
            Target::Volumes => match roots_from(supported, mounts) {
                Ok(roots) => Ok(self.begin(roots)),
                Err(error) => Err(error),
            },
            Target::Path(_) => Ok(self.begin(mounts)),
        }
    }

    /// The entry that answers this listing, given the trees that its walker
    /// ended with. A listing of a path has exactly one tree and takes no
    /// other number of them.
    pub fn assemble(&self, trees: Vec<Dir>) -> (answer: Option<Dir>)
        ensures
            answer.deep_view() == answer_of(self.target.deep_view(), trees.deep_view()),
    {
        match &self.target {
            Target::Volumes => Some(Dir::volumes(trees)),
            Target::Path(_) => {
                let mut trees = trees;
                if trees.len() == 1 {
                    trees.pop()
                } else {
                    None
                }
            },
        }
    }
}

/// The directory that files are served from: the one that the parameter
/// names, and `/` where the parameter is missing or could not be read.
pub fn drive_root(params: Option<FileParams>) -> (root: String)
    ensures
        root@ == match params {
            Some(params) => params.drive_path@,
            None => seq!['/'],
        },
{
    match params {
        Some(params) => params.drive_path,
        None => {
            proof {
                reveal_strlit("/");
                assert("/"@ =~= seq!['/']);
            }
            "/".to_owned()
        },
    }
}

/// The words that open a greeting.
pub open spec fn greeting_opening() -> Seq<char> {
    seq!['H', 'e', 'l', 'l', 'o', ':', ' ']
}

/// The greeting for `name` and the user that the parameter names: the
/// opening, the name, a comma and the user's name.
pub fn greeting(name: &str, params: &UserParams) -> (text: String)
    ensures
        text@ == greeting_opening() + name@ + seq![','] + params.username@,
{
    proof {
        reveal_strlit("Hello: ");
        reveal_strlit(",");
        assert("Hello: "@ =~= greeting_opening());
        assert(","@ =~= seq![',']);
    }
    let mut text = "Hello: ".to_owned();
    text.append(name);
    text.append(",");
    text.append(params.username.as_str());
    text
}

} // verus!
