//! Problem catalogue: the fixed constants of every room graph and the
//! named problem sizes.

use vstd::prelude::*;

verus! {

/// Size of the label alphabet.
pub const LABELS: usize = 4;

/// Number of doors on every room.
pub const DEGREE: usize = 6;

/// Edge steps allowed per room in one plan against the basic oracle.
pub const BASIC_PLAN_FACTOR: usize = 18;

/// Edge steps allowed per room in one plan against the rewriting oracle.
pub const REWRITE_PLAN_FACTOR: usize = 6;

/// The named problems.
#[derive(Debug, Clone, Copy, PartialEq, Eq, Structural)]
pub enum ProblemName {
    Probatio,
    Primus,
    Secundus,
    Tertius,
    Quartus,
    Quintus,
    Aleph,
    Beth,
    Gimel,
    Daleth,
    He,
    Vau,
    Zain,
    Hhet,
    Teth,
    Iod,
}

impl ProblemName {
    /// Room count of the problem.
    pub open spec fn spec_nodes(self) -> nat {
        match self {
            ProblemName::Probatio => 3,
            ProblemName::Primus => 6,
            ProblemName::Secundus => 12,
            ProblemName::Tertius => 18,
            ProblemName::Quartus => 24,
            ProblemName::Quintus => 30,
            ProblemName::Aleph => 12,
            ProblemName::Beth => 24,
            ProblemName::Gimel => 36,
            ProblemName::Daleth => 48,
            ProblemName::He => 60,
            ProblemName::Vau => 18,
            ProblemName::Zain => 36,
            ProblemName::Hhet => 54,
            ProblemName::Teth => 72,
            ProblemName::Iod => 90,
        }
    }

    /// Whether the problem's oracle accepts label rewriting.
    pub open spec fn spec_rewriting(self) -> bool {
        match self {
            ProblemName::Probatio
            | ProblemName::Primus
            | ProblemName::Secundus
            | ProblemName::Tertius
            | ProblemName::Quartus
            | ProblemName::Quintus => false,
            _ => true,
        }
    }

    /// The lower-case text that names the problem.
    pub open spec fn spec_text(self) -> Seq<char> {
        match self {
            ProblemName::Probatio => "probatio"@,
            ProblemName::Primus => "primus"@,
            ProblemName::Secundus => "secundus"@,
            ProblemName::Tertius => "tertius"@,
            ProblemName::Quartus => "quartus"@,
            ProblemName::Quintus => "quintus"@,
            ProblemName::Aleph => "aleph"@,
            ProblemName::Beth => "beth"@,
            ProblemName::Gimel => "gimel"@,
            ProblemName::Daleth => "daleth"@,
            ProblemName::He => "he"@,
            ProblemName::Vau => "vau"@,
            ProblemName::Zain => "zain"@,
            ProblemName::Hhet => "hhet"@,
            ProblemName::Teth => "teth"@,
            ProblemName::Iod => "iod"@,
        }
    }

    /// The problem at position `i` of the catalogue.
    pub open spec fn spec_at(i: int) -> ProblemName {
        if i == 0 {
            ProblemName::Probatio
        } else if i == 1 {
            ProblemName::Primus
        } else if i == 2 {
            ProblemName::Secundus
        } else if i == 3 {
            ProblemName::Tertius
        } else if i == 4 {
            ProblemName::Quartus
        } else if i == 5 {
            ProblemName::Quintus
        } else if i == 6 {
            ProblemName::Aleph
        } else if i == 7 {
            ProblemName::Beth
        } else if i == 8 {
            ProblemName::Gimel
        } else if i == 9 {
            ProblemName::Daleth
        } else if i == 10 {
            ProblemName::He
        } else if i == 11 {
            ProblemName::Vau
        } else if i == 12 {
            ProblemName::Zain
        } else if i == 13 {
            ProblemName::Hhet
        } else if i == 14 {
            ProblemName::Teth
        } else {
            ProblemName::Iod
        }
    }

    /// A text names the problem whose `spec_text` it is; no other text names
    /// a problem.
    pub open spec fn names(name: Seq<char>, problem: ProblemName) -> bool {
        name == problem.spec_text()
    }

    /// Room count of the problem.
    pub fn nodes(&self) -> (n: usize)
        ensures
            n == self.spec_nodes(),
    {
        match self {
            ProblemName::Probatio => 3,
            ProblemName::Primus => 6,
            ProblemName::Secundus => 12,
            ProblemName::Tertius => 18,
            ProblemName::Quartus => 24,
            ProblemName::Quintus => 30,
            ProblemName::Aleph => 12,
            ProblemName::Beth => 24,
            ProblemName::Gimel => 36,
            ProblemName::Daleth => 48,
            ProblemName::He => 60,
            ProblemName::Vau => 18,
            ProblemName::Zain => 36,
            ProblemName::Hhet => 54,
            ProblemName::Teth => 72,
            ProblemName::Iod => 90,
        }
    }

    /// Whether the problem is played against the rewriting oracle.
    pub fn rewriting(&self) -> (full: bool)
        ensures
            full == self.spec_rewriting(),
    {
        match self {
            ProblemName::Probatio
            | ProblemName::Primus
            | ProblemName::Secundus
            | ProblemName::Tertius
            | ProblemName::Quartus
            | ProblemName::Quintus => false,
            _ => true,
        }
    }

    /// The lower-case name of the problem.
    pub fn name(&self) -> (text: &'static str)
        ensures
            text@ == self.spec_text(),
    {
        match self {
            ProblemName::Probatio => "probatio",
            ProblemName::Primus => "primus",
            ProblemName::Secundus => "secundus",
            ProblemName::Tertius => "tertius",
            ProblemName::Quartus => "quartus",
            ProblemName::Quintus => "quintus",
            ProblemName::Aleph => "aleph",
            ProblemName::Beth => "beth",
            ProblemName::Gimel => "gimel",
            ProblemName::Daleth => "daleth",
            ProblemName::He => "he",
            ProblemName::Vau => "vau",
            ProblemName::Zain => "zain",
            ProblemName::Hhet => "hhet",
            ProblemName::Teth => "teth",
            ProblemName::Iod => "iod",
        }
    }

    /// The problem at position `i` of the catalogue.
    fn at(i: usize) -> (problem: ProblemName)
        requires
            i < 16,
        ensures
            problem == Self::spec_at(i as int),
    {
        if i == 0 {
            ProblemName::Probatio
        } else if i == 1 {
            ProblemName::Primus
        } else if i == 2 {
            ProblemName::Secundus
        } else if i == 3 {
            ProblemName::Tertius
        } else if i == 4 {
            ProblemName::Quartus
        } else if i == 5 {
            ProblemName::Quintus
        } else if i == 6 {
            ProblemName::Aleph
        } else if i == 7 {
            ProblemName::Beth
        } else if i == 8 {
            ProblemName::Gimel
        } else if i == 9 {
            ProblemName::Daleth
        } else if i == 10 {
            ProblemName::He
        } else if i == 11 {
            ProblemName::Vau
        } else if i == 12 {
            ProblemName::Zain
        } else if i == 13 {
            ProblemName::Hhet
        } else if i == 14 {
            ProblemName::Teth
        } else {
            ProblemName::Iod
        }
    }

    /// Looks a problem up by its lower-case name. The first catalogue entry
    /// with that name is returned, and `None` when no entry has it.
    pub fn from_name(name: &str) -> (found: Option<ProblemName>)
        ensures
            match found {
                Some(problem) => Self::names(name@, problem),
                None => forall|p: ProblemName| !Self::names(name@, p),
            },
    {
        let wanted = name.to_owned();
        let mut i: usize = 0;
        while i < 16
            invariant
                i <= 16,
                wanted@ == name@,
                forall|k: int| 0 <= k < i ==> !Self::names(name@, #[trigger] Self::spec_at(k)),
            decreases 16 - i,
        {
            let problem = Self::at(i);
            let text = problem.name().to_owned();
            if text == wanted {
                return Some(problem);
            }
            i += 1;
        }
        proof {
            assert forall|p: ProblemName| !Self::names(name@, p) by {
                lemma_catalogue_complete(p);
            }
        }
        None
    }
}

/// Every problem stands at some position of the catalogue.
pub proof fn lemma_catalogue_complete(p: ProblemName)
    ensures
        exists|k: int| 0 <= k < 16 && ProblemName::spec_at(k) == p,
{
    match p {
        ProblemName::Probatio => assert(ProblemName::spec_at(0) == p),
        ProblemName::Primus => assert(ProblemName::spec_at(1) == p),
        ProblemName::Secundus => assert(ProblemName::spec_at(2) == p),
        ProblemName::Tertius => assert(ProblemName::spec_at(3) == p),
        ProblemName::Quartus => assert(ProblemName::spec_at(4) == p),
        ProblemName::Quintus => assert(ProblemName::spec_at(5) == p),
        ProblemName::Aleph => assert(ProblemName::spec_at(6) == p),
        ProblemName::Beth => assert(ProblemName::spec_at(7) == p),
        ProblemName::Gimel => assert(ProblemName::spec_at(8) == p),
        ProblemName::Daleth => assert(ProblemName::spec_at(9) == p),
        ProblemName::He => assert(ProblemName::spec_at(10) == p),
        ProblemName::Vau => assert(ProblemName::spec_at(11) == p),
        ProblemName::Zain => assert(ProblemName::spec_at(12) == p),
        ProblemName::Hhet => assert(ProblemName::spec_at(13) == p),
        ProblemName::Teth => assert(ProblemName::spec_at(14) == p),
        ProblemName::Iod => assert(ProblemName::spec_at(15) == p),
    }
}

/// The value of a text of decimal digits, read left to right.
pub open spec fn decimal_value(text: Seq<char>) -> nat
    decreases text.len(),
{
    if text.len() == 0 {
        0
    } else {
        10 * decimal_value(text.drop_last()) + (text.last() as nat - '0' as nat) as nat
    }
}

/// Whether every character of the text is a decimal digit.
pub open spec fn all_digits(text: Seq<char>) -> bool {
    forall|i: int| 0 <= i < text.len() ==> '0' <= #[trigger] text[i] <= '9'
}

/// Whether the text is a room count: a bare, non-empty run of decimal
/// digits whose value fits the machine word.
pub open spec fn is_size(text: Seq<char>) -> bool {
    text.len() > 0 && all_digits(text) && decimal_value(text) <= usize::MAX
}

/// Reads a room count written as a bare, non-empty run of decimal digits.
/// Any other text, and a number that does not fit the machine word, gives
/// `None`.
pub fn parse_size(name: &str) -> (size: Option<usize>)
    ensures
        size is Some <==> is_size(name@),
        size is Some ==> size.unwrap() == decimal_value(name@),
{
    let len = name.unicode_len();
    if len == 0 {
        return None;
    }
    let mut value: usize = 0;
    let mut i: usize = 0;
    while i < len
        invariant
            i <= len,
            len == name@.len(),
            all_digits(name@.take(i as int)),
            value == decimal_value(name@.take(i as int)),
        decreases len - i,
    {
        let c = name.get_char(i);
        proof {
            assert(name@.take(i as int + 1).drop_last() =~= name@.take(i as int));
            assert(name@.take(i as int + 1).last() == c);
        }
        if c < '0' || c > '9' {
            proof {
                assert(!('0' <= name@[i as int] <= '9'));
            }
            return None;
        }
        let digit: usize = (c as u32 - '0' as u32) as usize;
        if value > (usize::MAX - digit) / 10 {
            proof {
                if all_digits(name@) {
                    lemma_decimal_value_grows(name@, i as int + 1);
                }
            }
            return None;
        }
        value = value * 10 + digit;
        i += 1;
        proof {
            assert(all_digits(name@.take(i as int))) by {
                assert forall|k: int| 0 <= k < i implies '0' <= #[trigger] name@.take(
                    i as int,
                )[k] <= '9' by {
                    if k < i - 1 {
                        assert(name@.take(i as int - 1)[k] == name@[k]);
                    }
                }
            }
        }
    }
    proof {
        assert(name@.take(len as int) =~= name@);
    }
    Some(value)
}

/// Reading more digits never gives a smaller value.
pub proof fn lemma_decimal_value_grows(text: Seq<char>, k: int)
    requires
        0 <= k <= text.len(),
        all_digits(text),
    ensures
        decimal_value(text.take(k)) <= decimal_value(text),
    decreases text.len() - k,
{
    if k == text.len() {
        assert(text.take(k) =~= text);
    } else {
        let longer = text.take(k + 1);
        assert(longer.drop_last() =~= text.take(k));
        assert(longer.last() == text[k]);
        assert('0' <= text[k] <= '9');
        lemma_decimal_value_grows(text, k + 1);
    }
}

/// Room count and rewriting flag of a named problem.
pub fn get_n_from_problem_name(problem_name: &str) -> (found: Option<(usize, bool)>)
    ensures
        match found {
            Some((n, full)) => exists|p: ProblemName|
                ProblemName::names(problem_name@, p) && n == p.spec_nodes() && full
                    == p.spec_rewriting(),
            None => forall|p: ProblemName| !ProblemName::names(problem_name@, p),
        },
{
    match ProblemName::from_name(problem_name) {
        Some(problem) => Some((problem.nodes(), problem.rewriting())),
        None => None,
    }
}

/// Room count and rewriting flag of a problem given by name or, failing
/// that, by a bare room count; a bare count selects the rewriting oracle.
pub fn resolve_problem(problem_name: &str) -> (found: Option<(usize, bool)>)
    ensures
        match found {
            Some((n, full)) => {
                ||| exists|p: ProblemName|
                    ProblemName::names(problem_name@, p) && n == p.spec_nodes() && full
                        == p.spec_rewriting()
                ||| {
                    &&& forall|p: ProblemName| !ProblemName::names(problem_name@, p)
                    &&& is_size(problem_name@)
                    &&& n == decimal_value(problem_name@)
                    &&& full
                }
            },
            None => {
                &&& forall|p: ProblemName| !ProblemName::names(problem_name@, p)
                &&& !is_size(problem_name@)
            },
        },
{
    match get_n_from_problem_name(problem_name) {
        Some(found) => Some(found),
        None => match parse_size(problem_name) {
            Some(n) => Some((n, true)),
            None => None,
        },
    }
}

} // verus!
