//! Birth/survival rules in `B<digits>/S<digits>` notation.

use vstd::prelude::*;
use vstd::string::*;
use vstd::utf8::is_ascii_chars;

verus! {

/// The message carried by the error that [`Rules::from_string`] returns.
pub const INVALID_RULE_FORMAT: &'static str =
    "Invalid rule format. Expected 'B<number>/S<number>'.";

/// The ASCII codes of the characters that make up a rule text.
const LETTER_B: u8 = 0x42;

const LETTER_S: u8 = 0x53;

const SLASH: u8 = 0x2f;

const DIGIT_0: u8 = 0x30;

const DIGIT_9: u8 = 0x39;

/// `c` is one of the characters `0` to `9`.
pub open spec fn is_digit(c: char) -> bool {
    '0' <= c && c <= '9'
}

/// The number that the digit character `c` stands for.
pub open spec fn digit_value(c: char) -> nat {
    (c as int - '0' as int) as nat
}

/// The character that writes the single-digit number `d`.
pub open spec fn digit_char(d: nat) -> char {
    (d + '0' as int) as char
}

/// Every character of `text` is a digit.
pub open spec fn all_digits(text: Seq<char>) -> bool {
    forall|i: int| 0 <= i < text.len() ==> is_digit(#[trigger] text[i])
}

/// Every number of `counts` is written with one digit.
pub open spec fn single_digits(counts: Seq<nat>) -> bool {
    forall|i: int| 0 <= i < counts.len() ==> #[trigger] counts[i] <= 9
}

/// The numbers that a run of digit characters stands for, one per character.
pub open spec fn digit_values(text: Seq<char>) -> Seq<nat> {
    Seq::new(text.len(), |i: int| digit_value(text[i]))
}

/// The run of digit characters that writes `counts`, one per number.
pub open spec fn digits_text(counts: Seq<nat>) -> Seq<char> {
    Seq::new(counts.len(), |i: int| digit_char(counts[i]))
}

/// The notation of a rule: `B`, the birth counts, `/S`, the survival counts.
pub open spec fn rule_text(birth: Seq<nat>, survival: Seq<nat>) -> Seq<char> {
    seq!['B'] + digits_text(birth) + seq!['/', 'S'] + digits_text(survival)
}

/// `text` reads `B<digits>/S<digits>` with its slash at index `k`.
pub open spec fn splits_at(text: Seq<char>, k: int) -> bool {
    &&& 1 <= k
    &&& k + 2 <= text.len()
    &&& text[0] == 'B'
    &&& text[k] == '/'
    &&& text[k + 1] == 'S'
    &&& all_digits(text.subrange(1, k))
    &&& all_digits(text.subrange(k + 2, text.len() as int))
}

/// `text` is the notation of some rule.
pub open spec fn is_rule_text(text: Seq<char>) -> bool {
    exists|k: int| splits_at(text, k)
}

/// The birth and survival counts that `text` denotes, in the order written,
/// or `None` where `text` is not of the form `B<digits>/S<digits>`.
pub open spec fn parse_rule(text: Seq<char>) -> Option<(Seq<nat>, Seq<nat>)> {
    if is_rule_text(text) {
        let k = choose|k: int| splits_at(text, k);
        Some(
            (
                digit_values(text.subrange(1, k)),
                digit_values(text.subrange(k + 2, text.len() as int)),
            ),
        )
    } else {
        None
    }
}

/// A rule text has its slash in one place only.
pub proof fn lemma_split_unique(text: Seq<char>, j: int, k: int)
    requires
        splits_at(text, j),
        splits_at(text, k),
    ensures
        j == k,
{
    if j < k {
        assert(text.subrange(1, k)[j - 1] == text[j]);
    } else if k < j {
        assert(text.subrange(1, j)[k - 1] == text[k]);
    }
}

/// What [`parse_rule`] gives once the place of the slash is known.
pub proof fn lemma_parse_at(text: Seq<char>, k: int)
    requires
        splits_at(text, k),
    ensures
        parse_rule(text) == Some(
            (
                digit_values(text.subrange(1, k)),
                digit_values(text.subrange(k + 2, text.len() as int)),
            ),
        ),
{
    let j = choose|j: int| splits_at(text, j);
    lemma_split_unique(text, j, k);
}

/// Writing a rule and reading it back gives the same counts in the same order.
pub proof fn lemma_parse_rule_text(birth: Seq<nat>, survival: Seq<nat>)
    requires
        single_digits(birth),
        single_digits(survival),
    ensures
        parse_rule(rule_text(birth, survival)) == Some((birth, survival)),
{
    let text = rule_text(birth, survival);
    let k = birth.len() as int + 1;
    let head = text.subrange(1, k);
    let tail = text.subrange(k + 2, text.len() as int);
    assert(text[0] == 'B');
    assert(text[k] == '/');
    assert(text[k + 1] == 'S');
    assert forall|i: int| 0 <= i < head.len() implies is_digit(#[trigger] head[i])
        && digit_value(head[i]) == birth[i] by {
        assert(head[i] == digit_char(birth[i]));
        assert(birth[i] <= 9);
    }
    assert forall|i: int| 0 <= i < tail.len() implies is_digit(#[trigger] tail[i])
        && digit_value(tail[i]) == survival[i] by {
        assert(tail[i] == digit_char(survival[i]));
        assert(survival[i] <= 9);
    }
    assert(splits_at(text, k));
    lemma_parse_at(text, k);
    assert(digit_values(head) =~= birth);
    assert(digit_values(tail) =~= survival);
}

/// What a rule comes to: its two sets of neighbour counts.
pub ghost struct RuleSets {
    pub birth: Set<nat>,
    pub survival: Set<nat>,
}

/// The sets of Conway's rule: born on 3, surviving on 2 and 3.
pub open spec fn conway_sets() -> RuleSets {
    RuleSets { birth: set![3nat], survival: set![2nat, 3nat] }
}

/// The counts of `B3/S23` make the sets of Conway's rule.
pub proof fn lemma_conway_counts()
    ensures
        seq![3nat].to_set() == set![3nat],
        seq![2nat, 3nat].to_set() == set![2nat, 3nat],
{
    let b = seq![3nat];
    let s = seq![2nat, 3nat];
    assert(b[0] == 3);
    assert(s[0] == 2 && s[1] == 3);
    assert(b.to_set() =~= set![3nat]);
    assert(s.to_set() =~= set![2nat, 3nat]);
}

/// A birth/survival rule: the neighbour counts on which a dead cell is born
/// and those on which a live cell survives.
///
/// The counts are kept as written, so that a rule goes back to the notation
/// it was read from.
#[derive(Debug)]
pub struct Rules {
    birth: Vec<usize>,
    survival: Vec<usize>,
}

impl View for Rules {
    type V = RuleSets;

    open spec fn view(&self) -> RuleSets {
        RuleSets { birth: self.birth_counts().to_set(), survival: self.survival_counts().to_set() }
    }
}

impl Rules {
    #[verifier::type_invariant]
    spec fn counts_are_digits(self) -> bool {
        &&& forall|i: int| 0 <= i < self.birth@.len() ==> #[trigger] self.birth@[i] <= 9
        &&& forall|i: int| 0 <= i < self.survival@.len() ==> #[trigger] self.survival@[i] <= 9
    }

    /// The birth counts in the order written.
    pub closed spec fn birth_counts(&self) -> Seq<nat> {
        Seq::new(self.birth@.len(), |i: int| self.birth@[i] as nat)
    }

    /// The survival counts in the order written.
    pub closed spec fn survival_counts(&self) -> Seq<nat> {
        Seq::new(self.survival@.len(), |i: int| self.survival@[i] as nat)
    }

    /// Reads a rule from `B<digits>/S<digits>` notation. Each digit is one
    /// count, so `B3/S23` is born on 3 and survives on 2 and 3. Any other
    /// text is refused with [`INVALID_RULE_FORMAT`].
    pub fn from_string(rule_str: &str) -> (r: Result<Rules, String>)
        ensures
            match r {
                Ok(rules) => parse_rule(rule_str@) == Some(
                    (rules.birth_counts(), rules.survival_counts()),
                ),
                Err(msg) => parse_rule(rule_str@) is None && msg@ == INVALID_RULE_FORMAT@,
            },
    {
        if !rule_str.is_ascii() {
            proof {
                lemma_rule_text_is_ascii(rule_str@);
            }
            return Err(INVALID_RULE_FORMAT.to_owned());
        }
        let bytes = rule_str.as_bytes();
        let ghost text = rule_str@;
        proof {
            is_ascii_spec_bytes(rule_str);
        }
        let n = bytes.len();
        if n < 3 || bytes[0] != LETTER_B {
            return Err(INVALID_RULE_FORMAT.to_owned());
        }
        let mut birth: Vec<usize> = Vec::new();
        let mut i: usize = 1;
        while i < n && DIGIT_0 <= bytes[i] && bytes[i] <= DIGIT_9
            invariant
                1 <= i <= n,
                n == text.len(),
                n == bytes@.len(),
                forall|j: int| 0 <= j < n ==> bytes@[j] == text[j] as u8,
                is_ascii_chars(text),
                birth@.len() == i - 1,
                forall|j: int| 0 <= j < birth@.len() ==> #[trigger] birth@[j] <= 9,
                forall|j: int| 1 <= j < i ==> is_digit(#[trigger] text[j]),
                forall|j: int| 0 <= j < birth@.len() ==> #[trigger] birth@[j] == digit_value(text[j + 1]),
            decreases n - i,
        {
            birth.push((bytes[i] - DIGIT_0) as usize);
            i += 1;
        }
        let k = i;
        if n - k < 2 || bytes[k] != SLASH || bytes[k + 1] != LETTER_S {
            proof {
                if is_rule_text(text) {
                    let j = choose|j: int| splits_at(text, j);
                    if j < k {
                        assert(text.subrange(1, k as int)[j - 1] == text[j]);
                    } else if j > k {
                        assert(text.subrange(1, j)[k - 1] == text[k as int]);
                    }
                }
            }
            return Err(INVALID_RULE_FORMAT.to_owned());
        }
        let mut survival: Vec<usize> = Vec::new();
        i = k + 2;
        while i < n
            invariant
                k + 2 <= i <= n,
                text == rule_str@,
                n == text.len(),
                n == bytes@.len(),
                forall|j: int| 0 <= j < n ==> bytes@[j] == text[j] as u8,
                is_ascii_chars(text),
                survival@.len() == i - (k + 2),
                forall|j: int| 0 <= j < survival@.len() ==> #[trigger] survival@[j] <= 9,
                forall|j: int| k + 2 <= j < i ==> is_digit(#[trigger] text[j]),
                forall|j: int|
                    0 <= j < survival@.len() ==> #[trigger] survival@[j] == digit_value(
                        text[j + k + 2],
                    ),
                text[0] == 'B',
                text[k as int] == '/',
                text[k + 1] == 'S',
                forall|j: int| 1 <= j < k ==> is_digit(#[trigger] text[j]),
            decreases n - i,
        {
            let b = bytes[i];
            if b < DIGIT_0 || b > DIGIT_9 {
                proof {
                    if is_rule_text(text) {
                        let j = choose|j: int| splits_at(text, j);
                        assert(splits_at(text, k as int)) by {
                            if j < k {
                                assert(text.subrange(1, k as int)[j - 1] == text[j]);
                            } else if j > k {
                                assert(text.subrange(1, j)[k - 1] == text[k as int]);
                            }
                        }
                        assert(text.subrange(k + 2, n as int)[i - (k + 2)] == text[i as int]);
                    }
                }
                return Err(INVALID_RULE_FORMAT.to_owned());
            }
            survival.push((b - DIGIT_0) as usize);
            i += 1;
        }
        let rules = Rules { birth, survival };
        proof {
            assert(splits_at(text, k as int));
            lemma_parse_at(text, k as int);
            assert(rules.birth_counts() =~= digit_values(text.subrange(1, k as int)));
            assert(rules.survival_counts() =~= digit_values(
                text.subrange(k + 2, text.len() as int),
            ));
        }
        Ok(rules)
    }
}

impl Rules {
    /// Conway's rule, `B3/S23`: the rule that stands where none is given.
    pub fn conway() -> (rules: Rules)
        ensures
            rules.birth_counts() == seq![3nat],
            rules.survival_counts() == seq![2nat, 3nat],
            rules@ == conway_sets(),
    {
        let mut birth: Vec<usize> = Vec::new();
        birth.push(3);
        let mut survival: Vec<usize> = Vec::new();
        survival.push(2);
        survival.push(3);
        let rules = Rules { birth, survival };
        proof {
            assert(rules.birth_counts() =~= seq![3nat]);
            assert(rules.survival_counts() =~= seq![2nat, 3nat]);
            lemma_conway_counts();
        }
        rules
    }

    /// Whether a dead cell with `neighbors` live neighbours is born.
    pub fn births(&self, neighbors: usize) -> (b: bool)
        ensures
            b == self@.birth.contains(neighbors as nat),
    {
        let b = holds(&self.birth, neighbors);
        proof {
            let counts = self.birth_counts();
            if b {
                let i = choose|i: int| 0 <= i < self.birth@.len() && self.birth@[i] == neighbors;
                assert(counts[i] == neighbors as nat);
            }
        }
        b
    }

    /// Whether a live cell with `neighbors` live neighbours survives.
    pub fn survives(&self, neighbors: usize) -> (b: bool)
        ensures
            b == self@.survival.contains(neighbors as nat),
    {
        let b = holds(&self.survival, neighbors);
        proof {
            let counts = self.survival_counts();
            if b {
                let i = choose|i: int|
                    0 <= i < self.survival@.len() && self.survival@[i] == neighbors;
                assert(counts[i] == neighbors as nat);
            }
        }
        b
    }

    /// The rule in `B<digits>/S<digits>` notation. Read back, the text gives
    /// the same counts in the same order.
    pub fn notation(&self) -> (text: String)
        ensures
            text@ == rule_text(self.birth_counts(), self.survival_counts()),
            parse_rule(text@) == Some((self.birth_counts(), self.survival_counts())),
    {
        proof {
            use_type_invariant(self);
            lemma_parse_rule_text(self.birth_counts(), self.survival_counts());
            reveal_strlit("B");
            reveal_strlit("/S");
        }
        let mut text = "B".to_owned();
        append_digits(&mut text, &self.birth);
        text.append("/S");
        append_digits(&mut text, &self.survival);
        proof {
            let b = Seq::new(self.birth@.len(), |i: int| digit_char(self.birth@[i] as nat));
            let s = Seq::new(self.survival@.len(), |i: int| digit_char(self.survival@[i] as nat));
            assert(b =~= digits_text(self.birth_counts()));
            assert(s =~= digits_text(self.survival_counts()));
            assert("B"@ =~= seq!['B']);
            assert("/S"@ =~= seq!['/', 'S']);
        }
        text
    }
}

impl Clone for Rules {
    fn clone(&self) -> (rules: Rules)
        ensures
            rules.birth_counts() == self.birth_counts(),
            rules.survival_counts() == self.survival_counts(),
    {
        proof {
            use_type_invariant(self);
        }
        let rules = Rules { birth: self.birth.clone(), survival: self.survival.clone() };
        assert(rules.birth_counts() =~= self.birth_counts());
        assert(rules.survival_counts() =~= self.survival_counts());
        rules
    }
}

impl Default for Rules {
    fn default() -> (rules: Rules)
        ensures
            rules.birth_counts() == seq![3nat],
            rules.survival_counts() == seq![2nat, 3nat],
            rules@ == conway_sets(),
    {
        Rules::conway()
    }
}

/// Whether `count` is one of `counts`.
fn holds(counts: &Vec<usize>, count: usize) -> (b: bool)
    ensures
        b == exists|i: int| 0 <= i < counts@.len() && counts@[i] == count,
{
    let mut i: usize = 0;
    while i < counts.len()
        invariant
            i <= counts@.len(),
            forall|j: int| 0 <= j < i ==> counts@[j] != count,
        decreases counts@.len() - i,
    {
        if counts[i] == count {
            return true;
        }
        i += 1;
    }
    false
}

/// The one-character text that writes the single-digit number `d`.
fn digit_str(d: usize) -> (s: &'static str)
    requires
        d <= 9,
    ensures
        s@ == seq![digit_char(d as nat)],
{
    proof {
        reveal_strlit("0");
        reveal_strlit("1");
        reveal_strlit("2");
        reveal_strlit("3");
        reveal_strlit("4");
        reveal_strlit("5");
        reveal_strlit("6");
        reveal_strlit("7");
        reveal_strlit("8");
        reveal_strlit("9");
    }
    let s = match d {
        0 => "0",
        1 => "1",
        2 => "2",
        3 => "3",
        4 => "4",
        5 => "5",
        6 => "6",
        7 => "7",
        8 => "8",
        _ => "9",
    };
    assert(s@ =~= seq![digit_char(d as nat)]);
    s
}

/// Appends one digit character for each number of `counts`.
fn append_digits(text: &mut String, counts: &Vec<usize>)
    requires
        forall|i: int| 0 <= i < counts@.len() ==> #[trigger] counts@[i] <= 9,
    ensures
        final(text)@ == old(text)@ + Seq::new(
            counts@.len(),
            |i: int| digit_char(counts@[i] as nat),
        ),
{
    let mut i: usize = 0;
    while i < counts.len()
        invariant
            i <= counts@.len(),
            forall|j: int| 0 <= j < counts@.len() ==> #[trigger] counts@[j] <= 9,
            text@ == old(text)@ + Seq::new(i as nat, |j: int| digit_char(counts@[j] as nat)),
        decreases counts@.len() - i,
    {
        let ghost before = text@;
        text.append(digit_str(counts[i]));
        assert(text@ =~= old(text)@ + Seq::new(
            (i + 1) as nat,
            |j: int| digit_char(counts@[j] as nat),
        ));
        i += 1;
    }
}

/// A rule text holds ASCII characters only.
proof fn lemma_rule_text_is_ascii(text: Seq<char>)
    ensures
        is_rule_text(text) ==> is_ascii_chars(text),
{
    if is_rule_text(text) {
        let k = choose|k: int| splits_at(text, k);
        assert forall|i: int| 0 <= i < text.len() implies '\0' <= #[trigger] text[i]
            && text[i] <= '\u{7f}' by {
            if 1 <= i < k {
                assert(text.subrange(1, k)[i - 1] == text[i]);
            } else if k + 2 <= i {
                assert(text.subrange(k + 2, text.len() as int)[i - (k + 2)] == text[i]);
            }
        }
    }
}

} // verus!
