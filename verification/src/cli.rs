//! The command line: a strict parser of `--key value` and `--flag` options.

use vstd::prelude::*;
use vstd::string::StrSliceExecFns;

use crate::text::{
    chars_of, natural_upto, parse_natural, pieces, same_text, split, trim, trimmed, views,
};

verus! {

/// What is wrong with an option.
#[derive(Clone, Copy, Debug, PartialEq, Eq, Structural)]
pub enum OptFault {
    /// An argument that does not start with two dashes.
    Positional,
    /// An option that was given before.
    Duplicate,
    /// An option that nothing knows.
    Unknown,
    /// An option that needs a value and has none.
    MissingValue,
    /// Not a non-negative integer.
    NotANumber,
    /// A list of integers without any.
    EmptyList,
    /// Not a list of integers.
    NotAList,
    /// Not a list of bit widths.
    NotBits,
    /// A bit width outside one to sixteen.
    BitsOutOfRange,
    /// Neither `ip` nor `cosine`.
    Metric,
    /// A backend that nothing knows.
    Backend,
    /// An empty value.
    EmptyValue,
}

/// What is wrong, and with which argument.
#[derive(Clone, Copy, Debug, PartialEq, Eq, Structural)]
pub struct OptError {
    pub fault: OptFault,
    pub at: usize,
}

/// Options that take no value.
pub open spec fn flag_word(s: Seq<char>) -> bool {
    ||| s == "sota3"@
    ||| s == "sota"@
    ||| s == "aniso"@
    ||| s == "pq"@
    ||| s == "lean"@
    ||| s == "graph"@
}

fn is_flag(s: &str) -> (r: bool)
    ensures
        r == flag_word(s@),
{
    same_text(s, "sota3")
        || same_text(s, "sota")
        || same_text(s, "aniso")
        || same_text(s, "pq")
        || same_text(s, "lean")
        || same_text(s, "graph")
}

/// Options that take a value.
pub open spec fn value_word(s: Seq<char>) -> bool {
    ||| s == "dataset"@
    ||| s == "max"@
    ||| s == "bits"@
    ||| s == "queries"@
    ||| s == "seed"@
    ||| s == "reps"@
    ||| s == "query-file"@
    ||| s == "query-max"@
    ||| s == "gold-file"@
    ||| s == "metric"@
    ||| s == "shortlist"@
    ||| s == "shortlist-scorer"@
    ||| s == "shortlist-rnorm"@
    ||| s == "nlist"@
    ||| s == "nprobe"@
    ||| s == "codecs"@
    ||| s == "rerank"@
    ||| s == "m"@
    ||| s == "ef-construction"@
    ||| s == "ef"@
    ||| s == "calib"@
    ||| s == "groups"@
    ||| s == "window"@
    ||| s == "sample-db"@
    ||| s == "sample-q"@
    ||| s == "backend"@
    ||| s == "decode-bench"@
    ||| s == "out"@
    ||| s == "per-query-out"@
    ||| s == "fit"@
    ||| s == "budget-bytes"@
}

fn is_value(s: &str) -> (r: bool)
    ensures
        r == value_word(s@),
{
    same_text(s, "dataset")
        || same_text(s, "max")
        || same_text(s, "bits")
        || same_text(s, "queries")
        || same_text(s, "seed")
        || same_text(s, "reps")
        || same_text(s, "query-file")
        || same_text(s, "query-max")
        || same_text(s, "gold-file")
        || same_text(s, "metric")
        || same_text(s, "shortlist")
        || same_text(s, "shortlist-scorer")
        || same_text(s, "shortlist-rnorm")
        || same_text(s, "nlist")
        || same_text(s, "nprobe")
        || same_text(s, "codecs")
        || same_text(s, "rerank")
        || same_text(s, "m")
        || same_text(s, "ef-construction")
        || same_text(s, "ef")
        || same_text(s, "calib")
        || same_text(s, "groups")
        || same_text(s, "window")
        || same_text(s, "sample-db")
        || same_text(s, "sample-q")
        || same_text(s, "backend")
        || same_text(s, "decode-bench")
        || same_text(s, "out")
        || same_text(s, "per-query-out")
        || same_text(s, "fit")
        || same_text(s, "budget-bytes")
}

/// Options whose value is a non-negative integer.
pub open spec fn number_word(s: Seq<char>) -> bool {
    ||| s == "max"@
    ||| s == "queries"@
    ||| s == "seed"@
    ||| s == "reps"@
    ||| s == "query-max"@
    ||| s == "nlist"@
    ||| s == "m"@
    ||| s == "ef-construction"@
    ||| s == "groups"@
    ||| s == "window"@
    ||| s == "sample-db"@
    ||| s == "sample-q"@
    ||| s == "decode-bench"@
    ||| s == "budget-bytes"@
}

fn is_number(s: &str) -> (r: bool)
    ensures
        r == number_word(s@),
{
    same_text(s, "max")
        || same_text(s, "queries")
        || same_text(s, "seed")
        || same_text(s, "reps")
        || same_text(s, "query-max")
        || same_text(s, "nlist")
        || same_text(s, "m")
        || same_text(s, "ef-construction")
        || same_text(s, "groups")
        || same_text(s, "window")
        || same_text(s, "sample-db")
        || same_text(s, "sample-q")
        || same_text(s, "decode-bench")
        || same_text(s, "budget-bytes")
}

/// Options whose value is a list of non-negative integers.
pub open spec fn list_word(s: Seq<char>) -> bool {
    ||| s == "shortlist"@
    ||| s == "nprobe"@
    ||| s == "ef"@
    ||| s == "calib"@
    ||| s == "rerank"@
}

fn is_list(s: &str) -> (r: bool)
    ensures
        r == list_word(s@),
{
    same_text(s, "shortlist")
        || same_text(s, "nprobe")
        || same_text(s, "ef")
        || same_text(s, "calib")
        || same_text(s, "rerank")
}

/// The backends that can reconstruct vectors.
pub open spec fn backend_word(s: Seq<char>) -> bool {
    ||| s == "trellis"@
    ||| s == "trellis-lr"@
    ||| s == "rabitq"@
    ||| s == "pvq"@
    ||| s == "baseline"@
    ||| s == "blockquant"@
    ||| s == "pq"@
    ||| s == "ultraquant"@
    ||| s == "dehub"@
}

fn is_backend(s: &str) -> (r: bool)
    ensures
        r == backend_word(s@),
{
    same_text(s, "trellis")
        || same_text(s, "trellis-lr")
        || same_text(s, "rabitq")
        || same_text(s, "pvq")
        || same_text(s, "baseline")
        || same_text(s, "blockquant")
        || same_text(s, "pq")
        || same_text(s, "ultraquant")
        || same_text(s, "dehub")
}

/// The first thing wrong with a list of integers, from part `i` on.
pub open spec fn list_fault(parts: Seq<Seq<char>>, i: int) -> Option<OptFault>
    decreases parts.len() - i,
{
    if i >= parts.len() {
        None
    } else if natural_upto(trimmed(parts[i]), usize::MAX as nat) is None {
        Some(OptFault::NotAList)
    } else {
        list_fault(parts, i + 1)
    }
}

/// The first thing wrong with a list of bit widths, from part `i` on.
pub open spec fn bits_fault(parts: Seq<Seq<char>>, i: int) -> Option<OptFault>
    decreases parts.len() - i,
{
    if i >= parts.len() {
        None
    } else {
        match natural_upto(trimmed(parts[i]), 255) {
            None => Some(OptFault::NotBits),
            Some(b) => if 1 <= b <= 16 {
                bits_fault(parts, i + 1)
            } else {
                Some(OptFault::BitsOutOfRange)
            },
        }
    }
}

/// What is wrong with the value of an option.
pub open spec fn value_fault(key: Seq<char>, value: Seq<char>) -> Option<OptFault> {
    if number_word(key) {
        if natural_upto(value, usize::MAX as nat) is None {
            Some(OptFault::NotANumber)
        } else {
            None
        }
    } else if list_word(key) {
        if value.len() == 0 {
            Some(OptFault::EmptyList)
        } else {
            list_fault(pieces(value, ','), 0)
        }
    } else if key == "bits"@ {
        bits_fault(pieces(value, ','), 0)
    } else if key == "metric"@ {
        if value == "ip"@ || value == "cosine"@ {
            None
        } else {
            Some(OptFault::Metric)
        }
    } else if key == "backend"@ {
        if backend_word(value) {
            None
        } else {
            Some(OptFault::Backend)
        }
    } else if value.len() == 0 {
        Some(OptFault::EmptyValue)
    } else {
        None
    }
}

fn check_list(parts: &Vec<Vec<char>>) -> (r: Option<OptFault>)
    ensures
        r == list_fault(views(parts@), 0),
{
    let mut i: usize = 0;
    while i < parts.len()
        invariant
            i <= parts.len(),
            list_fault(views(parts@), 0) == list_fault(views(parts@), i as int),
        decreases parts.len() - i,
    {
        assert(views(parts@)[i as int] == parts@[i as int]@);
        let part: Vec<char> = trim(&parts[i]);
        if parse_natural(&part, usize::MAX as u64).is_none() {
            return Some(OptFault::NotAList);
        }
        i += 1;
    }
    None
}

fn check_bits(parts: &Vec<Vec<char>>) -> (r: Option<OptFault>)
    ensures
        r == bits_fault(views(parts@), 0),
{
    let mut i: usize = 0;
    while i < parts.len()
        invariant
            i <= parts.len(),
            bits_fault(views(parts@), 0) == bits_fault(views(parts@), i as int),
        decreases parts.len() - i,
    {
        assert(views(parts@)[i as int] == parts@[i as int]@);
        let part: Vec<char> = trim(&parts[i]);
        match parse_natural(&part, 255) {
            None => {
                return Some(OptFault::NotBits);
            },
            Some(b) => {
                if b < 1 || b > 16 {
                    return Some(OptFault::BitsOutOfRange);
                }
            },
        }
        i += 1;
    }
    None
}

/// Checks the value of an option.
pub fn validate_option(key: &str, value: &str) -> (r: Result<(), OptFault>)
    ensures
        match r {
            Ok(_) => value_fault(key@, value@) is None,
            Err(f) => value_fault(key@, value@) == Some(f),
        },
{
    let chars: Vec<char> = chars_of(value);
    if is_number(key) {
        if parse_natural(&chars, usize::MAX as u64).is_none() {
            return Err(OptFault::NotANumber);
        }
        return Ok(());
    }
    if is_list(key) {
        if chars.len() == 0 {
            return Err(OptFault::EmptyList);
        }
        return match check_list(&split(&chars, ',')) {
            Some(f) => Err(f),
            None => Ok(()),
        };
    }
    if same_text(key, "bits") {
        return match check_bits(&split(&chars, ',')) {
            Some(f) => Err(f),
            None => Ok(()),
        };
    }
    if same_text(key, "metric") {
        if same_text(value, "ip") || same_text(value, "cosine") {
            return Ok(());
        }
        return Err(OptFault::Metric);
    }
    if same_text(key, "backend") {
        if is_backend(value) {
            return Ok(());
        }
        return Err(OptFault::Backend);
    }
    if chars.len() == 0 {
        return Err(OptFault::EmptyValue);
    }
    Ok(())
}

/// The options that were given, in order, each once.
pub struct Options {
    entries: Vec<(String, String)>,
}

/// The keys and values of a list of options.
pub open spec fn pairs(s: Seq<(String, String)>) -> Seq<(Seq<char>, Seq<char>)> {
    Seq::new(s.len(), |i: int| (s[i].0@, s[i].1@))
}

/// Whether a key occurs.
pub open spec fn has_key(s: Seq<(Seq<char>, Seq<char>)>, key: Seq<char>) -> bool {
    exists|i: int| 0 <= i < s.len() && (#[trigger] s[i]).0 == key
}

/// The value of a key.
pub open spec fn value_of(s: Seq<(Seq<char>, Seq<char>)>, key: Seq<char>) -> Option<Seq<char>>
    decreases s.len(),
{
    if s.len() == 0 {
        None
    } else if s.last().0 == key {
        Some(s.last().1)
    } else {
        value_of(s.drop_last(), key)
    }
}

/// No key occurs twice.
pub open spec fn distinct_keys(s: Seq<(Seq<char>, Seq<char>)>) -> bool {
    forall|i: int, j: int|
        0 <= i < j < s.len() ==> (#[trigger] s[i]).0 != (#[trigger] s[j]).0
}

/// A key has the value that it occurs with.
pub proof fn a_key_has_the_value_it_occurs_with(s: Seq<(Seq<char>, Seq<char>)>, i: int)
    requires
        distinct_keys(s),
        0 <= i < s.len(),
    ensures
        value_of(s, s[i].0) == Some(s[i].1),
    decreases s.len(),
{
    if i < s.len() - 1 {
        assert(s[i].0 != s[s.len() - 1].0);
        let rest = s.drop_last();
        assert(rest[i] == s[i]);
        a_key_has_the_value_it_occurs_with(rest, i);
    }
}

impl Options {
    pub closed spec fn view(&self) -> Seq<(Seq<char>, Seq<char>)> {
        pairs(self.entries@)
    }

    /// The value of an option.
    pub open spec fn value(&self, key: Seq<char>) -> Option<Seq<char>> {
        value_of(self.view(), key)
    }

    /// The value of an option, if it was given.
    pub fn get(&self, key: &str) -> (r: Option<&String>)
        ensures
            match r {
                Some(v) => self.value(key@) == Some(v@),
                None => self.value(key@) is None,
            },
    {
        let mut i: usize = self.entries.len();
        assert(self.view().take(i as int) =~= self.view());
        while i > 0
            invariant
                i <= self.entries.len(),
                value_of(self.view(), key@) == value_of(self.view().take(i as int), key@),
            decreases i,
        {
            i -= 1;
            proof {
                let s = self.view().take(i + 1);
                assert(s.drop_last() =~= self.view().take(i as int));
                assert(s.last() == (self.entries@[i as int].0@, self.entries@[i as int].1@));
            }
            if same_text(self.entries[i].0.as_str(), key) {
                return Some(&self.entries[i].1);
            }
        }
        None
    }

    /// Whether an option was given.
    pub fn contains_key(&self, key: &str) -> (r: bool)
        ensures
            r == (self.value(key@) is Some),
    {
        self.get(key).is_some()
    }
}

/// Whether `s` starts with two dashes.
pub open spec fn is_dashed(s: Seq<char>) -> bool {
    s.len() >= 2 && s[0] == '-' && s[1] == '-'
}

fn dashed(s: &str) -> (r: bool)
    ensures
        r == is_dashed(s@),
{
    s.unicode_len() >= 2 && s.get_char(0) == '-' && s.get_char(1) == '-'
}

/// The contents of a list of arguments.
pub open spec fn texts(args: Seq<String>) -> Seq<Seq<char>> {
    Seq::new(args.len(), |i: int| args[i]@)
}

/// What the arguments from the `i`-th on add to the options in `given`.
pub open spec fn scan(
    args: Seq<Seq<char>>,
    i: int,
    given: Seq<(Seq<char>, Seq<char>)>,
) -> Result<Seq<(Seq<char>, Seq<char>)>, OptError>
    decreases args.len() - i,
{
    if i >= args.len() {
        Ok(given)
    } else if !is_dashed(args[i]) {
        Err(OptError { fault: OptFault::Positional, at: i as usize })
    } else {
        let key = args[i].skip(2);
        if has_key(given, key) {
            Err(OptError { fault: OptFault::Duplicate, at: i as usize })
        } else if flag_word(key) {
            scan(args, i + 1, given.push((key, "true"@)))
        } else if value_word(key) {
            if i + 1 >= args.len() || is_dashed(args[i + 1]) {
                Err(OptError { fault: OptFault::MissingValue, at: i as usize })
            } else {
                match value_fault(key, args[i + 1]) {
                    Some(f) => Err(OptError { fault: f, at: i as usize }),
                    None => scan(args, i + 2, given.push((key, args[i + 1]))),
                }
            }
        } else {
            Err(OptError { fault: OptFault::Unknown, at: i as usize })
        }
    }
}

/// An option that is known: a flag, or a key with a value that is valid for it.
pub open spec fn is_known(option: (Seq<char>, Seq<char>)) -> bool {
    ||| flag_word(option.0) && option.1 == "true"@
    ||| value_word(option.0) && !is_dashed(option.1) && value_fault(option.0, option.1) is None
}

/// A list of options that are all known.
pub open spec fn all_known(s: Seq<(Seq<char>, Seq<char>)>) -> bool {
    forall|i: int| 0 <= i < s.len() ==> is_known(#[trigger] s[i])
}

/// Only known options with valid values are ever accepted.
pub proof fn accepted_options_are_known(args: Seq<Seq<char>>)
    requires
        scan(args, 0, Seq::empty()) is Ok,
    ensures
        all_known(scan(args, 0, Seq::empty())->Ok_0),
{
    lemma_scan_known(args, 0, Seq::empty());
}

proof fn lemma_scan_known(args: Seq<Seq<char>>, i: int, given: Seq<(Seq<char>, Seq<char>)>)
    requires
        0 <= i,
        scan(args, i, given) is Ok,
        all_known(given),
    ensures
        all_known(scan(args, i, given)->Ok_0),
    decreases args.len() - i,
{
    if i < args.len() {
        let key = args[i].skip(2);
        if flag_word(key) {
            lemma_scan_known(args, i + 1, given.push((key, "true"@)));
        } else {
            assert(is_known((key, args[i + 1])));
            lemma_scan_known(args, i + 2, given.push((key, args[i + 1])));
        }
    }
}

fn seen_key(entries: &Vec<(String, String)>, key: &str) -> (r: bool)
    ensures
        r == has_key(pairs(entries@), key@),
{
    let mut i: usize = 0;
    while i < entries.len()
        invariant
            i <= entries.len(),
            forall|j: int| 0 <= j < i ==> (#[trigger] pairs(entries@)[j]).0 != key@,
        decreases entries.len() - i,
    {
        if same_text(entries[i].0.as_str(), key) {
            assert(pairs(entries@)[i as int].0 == key@);
            return true;
        }
        i += 1;
    }
    false
}

/// Parses `--key value` and `--flag` options.
pub fn parse_opts(args: &[String]) -> (r: Result<Options, OptError>)
    ensures
        match r {
            Ok(o) => scan(texts(args@), 0, Seq::empty()) == Ok::<
                Seq<(Seq<char>, Seq<char>)>,
                OptError,
            >(o.view()) && distinct_keys(o.view()),
            Err(e) => scan(texts(args@), 0, Seq::empty()) == Err::<
                Seq<(Seq<char>, Seq<char>)>,
                OptError,
            >(e),
        },
{
    let mut entries: Vec<(String, String)> = Vec::new();
    let ghost all = texts(args@);
    let mut i: usize = 0;
    assert(pairs(entries@) =~= Seq::empty());
    while i < args.len()
        invariant
            i <= args.len(),
            all == texts(args@),
            scan(all, 0, Seq::empty()) == scan(all, i as int, pairs(entries@)),
            distinct_keys(pairs(entries@)),
        decreases args.len() - i,
    {
        let arg: &str = args[i].as_str();
        assert(all[i as int] == arg@);
        if !dashed(arg) {
            return Err(OptError { fault: OptFault::Positional, at: i });
        }
        let n: usize = arg.unicode_len();
        let key: &str = arg.substring_char(2, n);
        assert(key@ =~= all[i as int].skip(2));
        if seen_key(&entries, key) {
            return Err(OptError { fault: OptFault::Duplicate, at: i });
        }
        let ghost before = pairs(entries@);
        if is_flag(key) {
            entries.push((key.to_owned(), "true".to_owned()));
            proof {
                assert(pairs(entries@) =~= before.push((key@, "true"@)));
                assert(distinct_keys(pairs(entries@)));
            }
            i += 1;
        } else if is_value(key) {
            if args.len() - i < 2 {
                return Err(OptError { fault: OptFault::MissingValue, at: i });
            }
            let value: &str = args[i + 1].as_str();
            assert(all[i + 1] == value@);
            if dashed(value) {
                return Err(OptError { fault: OptFault::MissingValue, at: i });
            }
            match validate_option(key, value) {
                Err(f) => {
                    return Err(OptError { fault: f, at: i });
                },
                Ok(_) => {},
            }
            entries.push((key.to_owned(), value.to_owned()));
            proof {
                assert(pairs(entries@) =~= before.push((key@, value@)));
                assert(distinct_keys(pairs(entries@)));
            }
            i += 2;
        } else {
            return Err(OptError { fault: OptFault::Unknown, at: i });
        }
    }
    Ok(Options { entries })
}

/// The single bit width that `--bits` gives, `default` if it was not given.
pub fn single_bits(opts: &Options, default: u8) -> (r: Result<u8, OptFault>)
    ensures
        match opts.value("bits"@) {
            None => r == Ok::<u8, OptFault>(default),
            Some(raw) => match natural_upto(trimmed(raw), 255) {
                Some(b) => r matches Ok(x) && x == b,
                None => r == Err::<u8, OptFault>(OptFault::NotBits),
            },
        },
{
    match opts.get("bits") {
        None => Ok(default),
        Some(raw) => {
            let part: Vec<char> = trim(&chars_of(raw.as_str()));
            match parse_natural(&part, 255) {
                Some(b) => Ok(b as u8),
                None => Err(OptFault::NotBits),
            }
        },
    }
}

// ---- What the command line promises ----

/// A list of integers is right if every part, without white space around it, is one.
pub proof fn every_part_of_a_list_is_checked(parts: Seq<Seq<char>>, i: int)
    requires
        0 <= i <= parts.len(),
    ensures
        list_fault(parts, i) is None <==> forall|j: int|
            i <= j < parts.len() ==> natural_upto(
                trimmed(#[trigger] parts[j]),
                usize::MAX as nat,
            ) is Some,
        bits_fault(parts, i) is None <==> forall|j: int|
            i <= j < parts.len() ==> (natural_upto(trimmed(#[trigger] parts[j]), 255) matches Some(
                b,
            ) && 1 <= b <= 16),
    decreases parts.len() - i,
{
    if i < parts.len() {
        every_part_of_a_list_is_checked(parts, i + 1);
    }
}

/// The arguments that spell an option: its key behind two dashes and, unless it is a flag, its
/// value.
pub open spec fn spelling(option: (Seq<char>, Seq<char>)) -> Seq<Seq<char>> {
    if flag_word(option.0) {
        seq![seq!['-', '-'] + option.0]
    } else {
        seq![seq!['-', '-'] + option.0, option.1]
    }
}

/// The arguments that spell a list of options.
pub open spec fn spelled(s: Seq<(Seq<char>, Seq<char>)>) -> Seq<Seq<char>>
    decreases s.len(),
{
    if s.len() == 0 {
        Seq::empty()
    } else {
        spelled(s.drop_last()) + spelling(s.last())
    }
}

proof fn lemma_scan_spells(args: Seq<Seq<char>>, i: int, given: Seq<(Seq<char>, Seq<char>)>)
    requires
        0 <= i <= args.len(),
        args.take(i) == spelled(given),
        distinct_keys(given),
    ensures
        scan(args, i, given) matches Ok(s) ==> spelled(s) == args && distinct_keys(s),
    decreases args.len() - i,
{
    if i >= args.len() {
        assert(args.take(i) =~= args);
    } else if is_dashed(args[i]) {
        let key = args[i].skip(2);
        assert(seq!['-', '-'] + key =~= args[i]);
        if !has_key(given, key) {
            if flag_word(key) {
                let now = given.push((key, "true"@));
                assert(now.drop_last() =~= given);
                assert(args.take(i + 1) =~= args.take(i) + spelling(now.last()));
                assert(distinct_keys(now)) by {
                    assert forall|a: int, b: int| 0 <= a < b < now.len() implies (
                    #[trigger] now[a]).0 != (#[trigger] now[b]).0 by {
                        if b == given.len() {
                            assert(given[a].0 != key);
                        }
                    }
                }
                lemma_scan_spells(args, i + 1, now);
            } else if value_word(key) && i + 1 < args.len() {
                let now = given.push((key, args[i + 1]));
                assert(now.drop_last() =~= given);
                assert(args.take(i + 2) =~= args.take(i) + spelling(now.last()));
                assert(distinct_keys(now)) by {
                    assert forall|a: int, b: int| 0 <= a < b < now.len() implies (
                    #[trigger] now[a]).0 != (#[trigger] now[b]).0 by {
                        if b == given.len() {
                            assert(given[a].0 != key);
                        }
                    }
                }
                lemma_scan_spells(args, i + 2, now);
            }
        }
    }
}

/// Accepted options are what the arguments spell, all of it and in that order, and no option is
/// given twice.
pub proof fn accepted_options_spell_the_arguments(args: Seq<Seq<char>>)
    ensures
        scan(args, 0, Seq::empty()) matches Ok(s) ==> spelled(s) == args && distinct_keys(s),
{
    assert(args.take(0) =~= Seq::empty());
    lemma_scan_spells(args, 0, Seq::empty());
}

proof fn lemma_spelled_prefix(s: Seq<(Seq<char>, Seq<char>)>, k: int)
    requires
        0 <= k < s.len(),
    ensures
        spelled(s.take(k + 1)) == spelled(s.take(k)) + spelling(s[k]),
        spelled(s).len() >= spelled(s.take(k + 1)).len(),
        spelled(s).take(spelled(s.take(k + 1)).len() as int) == spelled(s.take(k + 1)),
    decreases s.len() - k,
{
    assert(s.take(k + 1).drop_last() =~= s.take(k));
    if k + 1 == s.len() {
        assert(s.take(k + 1) =~= s);
        assert(spelled(s).take(spelled(s).len() as int) =~= spelled(s));
    } else {
        lemma_spelled_prefix(s, k + 1);
        let a = spelled(s.take(k + 1));
        let b = spelled(s.take(k + 2));
        assert(s.take(k + 2).drop_last() =~= s.take(k + 1));
        assert(b == a + spelling(s[k + 1]));
        assert(spelled(s).take(a.len() as int) =~= spelled(s).take(b.len() as int).take(
            a.len() as int,
        ));
        assert(b.take(a.len() as int) =~= a);
    }
}

proof fn lemma_scan_accepts(s: Seq<(Seq<char>, Seq<char>)>, k: int)
    requires
        all_known(s),
        distinct_keys(s),
        0 <= k <= s.len(),
    ensures
        scan(spelled(s), spelled(s.take(k)).len() as int, s.take(k)) == Ok::<
            Seq<(Seq<char>, Seq<char>)>,
            OptError,
        >(s),
    decreases s.len() - k,
{
    let args = spelled(s);
    let given = s.take(k);
    let pos = spelled(given).len() as int;
    if k == s.len() {
        assert(given =~= s);
    } else {
        lemma_spelled_prefix(s, k);
        let (key, value) = s[k];
        assert(is_known(s[k]));
        let next = spelled(s.take(k + 1));
        assert(args.take(next.len() as int)[pos] == next[pos]);
        assert(args[pos] == seq!['-', '-'] + key);
        assert(args[pos].skip(2) =~= key);
        assert(!has_key(given, key)) by {
            if has_key(given, key) {
                let j = choose|j: int| 0 <= j < given.len() && (#[trigger] given[j]).0 == key;
                assert(s[j].0 != s[k].0);
            }
        }
        assert(s.take(k + 1) =~= given.push(s[k]));
        if flag_word(key) {
            lemma_words_apart(key);
        } else {
            assert(args.take(next.len() as int)[pos + 1] == next[pos + 1]);
            assert(args[pos + 1] == value);
        }
        lemma_scan_accepts(s, k + 1);
    }
}

/// No flag is an option with a value.
proof fn lemma_words_apart(s: Seq<char>)
    requires
        flag_word(s),
    ensures
        !value_word(s),
{
    reveal_strlit("sota3");
    reveal_strlit("sota");
    reveal_strlit("aniso");
    reveal_strlit("pq");
    reveal_strlit("lean");
    reveal_strlit("graph");
    reveal_strlit("dataset");
    reveal_strlit("max");
    reveal_strlit("bits");
    reveal_strlit("queries");
    reveal_strlit("seed");
    reveal_strlit("reps");
    reveal_strlit("query-file");
    reveal_strlit("query-max");
    reveal_strlit("gold-file");
    reveal_strlit("metric");
    reveal_strlit("shortlist");
    reveal_strlit("shortlist-scorer");
    reveal_strlit("shortlist-rnorm");
    reveal_strlit("nlist");
    reveal_strlit("nprobe");
    reveal_strlit("codecs");
    reveal_strlit("rerank");
    reveal_strlit("m");
    reveal_strlit("ef-construction");
    reveal_strlit("ef");
    reveal_strlit("calib");
    reveal_strlit("groups");
    reveal_strlit("window");
    reveal_strlit("sample-db");
    reveal_strlit("sample-q");
    reveal_strlit("backend");
    reveal_strlit("decode-bench");
    reveal_strlit("out");
    reveal_strlit("per-query-out");
    reveal_strlit("fit");
    reveal_strlit("budget-bytes");
    assert("sota3"@.len() == 5 && "sota3"@[1] == 'o');
    assert("sota"@.len() == 4 && "sota"@[1] == 'o');
    assert("aniso"@.len() == 5 && "aniso"@[1] == 'n');
    assert("pq"@.len() == 2 && "pq"@[1] == 'q');
    assert("lean"@.len() == 4 && "lean"@[0] == 'l');
    assert("graph"@.len() == 5 && "graph"@[1] == 'r');
    assert("dataset"@.len() == 7);
    assert("max"@.len() == 3);
    assert("bits"@.len() == 4 && "bits"@[0] == 'b' && "bits"@[1] == 'i');
    assert("queries"@.len() == 7);
    assert("seed"@.len() == 4 && "seed"@[0] == 's' && "seed"@[1] == 'e');
    assert("reps"@.len() == 4 && "reps"@[0] == 'r' && "reps"@[1] == 'e');
    assert("query-file"@.len() == 10);
    assert("query-max"@.len() == 9);
    assert("gold-file"@.len() == 9);
    assert("metric"@.len() == 6);
    assert("shortlist"@.len() == 9);
    assert("shortlist-scorer"@.len() == 16);
    assert("shortlist-rnorm"@.len() == 15);
    assert("nlist"@.len() == 5 && "nlist"@[1] == 'l');
    assert("nprobe"@.len() == 6);
    assert("codecs"@.len() == 6);
    assert("rerank"@.len() == 6);
    assert("m"@.len() == 1);
    assert("ef-construction"@.len() == 15);
    assert("ef"@.len() == 2 && "ef"@[1] == 'f');
    assert("calib"@.len() == 5 && "calib"@[1] == 'a');
    assert("groups"@.len() == 6);
    assert("window"@.len() == 6);
    assert("sample-db"@.len() == 9);
    assert("sample-q"@.len() == 8);
    assert("backend"@.len() == 7);
    assert("decode-bench"@.len() == 12);
    assert("out"@.len() == 3);
    assert("per-query-out"@.len() == 13);
    assert("fit"@.len() == 3);
    assert("budget-bytes"@.len() == 12);
}

/// Whatever options are known and given once are accepted as they are.
pub proof fn known_options_are_accepted(s: Seq<(Seq<char>, Seq<char>)>)
    requires
        all_known(s),
        distinct_keys(s),
    ensures
        scan(spelled(s), 0, Seq::empty()) == Ok::<Seq<(Seq<char>, Seq<char>)>, OptError>(s),
{
    assert(s.take(0) =~= Seq::empty());
    lemma_scan_accepts(s, 0);
}

/// Accepted options have values that can be used: where a number is wanted there is one, where a
/// list is wanted every part is a number, rates are between one and sixteen bits, a metric is one
/// of the two, and a flag is true.
pub proof fn accepted_values_can_be_used(args: Seq<Seq<char>>, i: int)
    requires
        scan(args, 0, Seq::empty()) is Ok,
        0 <= i < scan(args, 0, Seq::empty())->Ok_0.len(),
    ensures
        ({
            let (key, value) = scan(args, 0, Seq::empty())->Ok_0[i];
            let parts = pieces(value, ',');
            &&& (key == "max"@ || key == "queries"@ || key == "seed"@ || key == "reps"@ || key
                == "query-max"@ || key == "nlist"@ || key == "m"@ || key == "ef-construction"@
                || key == "groups"@ || key == "window"@ || key == "sample-db"@ || key
                == "sample-q"@ || key == "decode-bench"@ || key == "budget-bytes"@)
                ==> natural_upto(value, usize::MAX as nat) is Some
            &&& (key == "nprobe"@ || key == "rerank"@ || key == "calib"@ || key == "ef"@ || key
                == "shortlist"@) ==> value.len() > 0 && forall|j: int|
                0 <= j < parts.len() ==> natural_upto(
                    trimmed(#[trigger] parts[j]),
                    usize::MAX as nat,
                ) is Some
            &&& key == "bits"@ ==> forall|j: int|
                0 <= j < parts.len() ==> (natural_upto(
                    trimmed(#[trigger] parts[j]),
                    255,
                ) matches Some(b) && 1 <= b <= 16)
            &&& key == "metric"@ ==> value == "ip"@ || value == "cosine"@
            &&& (key == "sota3"@ || key == "sota"@ || key == "aniso"@ || key == "pq"@ || key
                == "lean"@ || key == "graph"@) ==> value == "true"@
        }),
{
    accepted_options_are_known(args);
    lemma_uses_apart();
    let (key, value) = scan(args, 0, Seq::empty())->Ok_0[i];
    if flag_word(key) {
        lemma_words_apart(key);
    }
    assert(is_known(scan(args, 0, Seq::empty())->Ok_0[i]));
    every_part_of_a_list_is_checked(pieces(value, ','), 0);
}

/// Words of different use are different.
proof fn lemma_uses_apart()
    ensures
        forall|key: Seq<char>| #[trigger] list_word(key) ==> !number_word(key) && !flag_word(key),
        forall|key: Seq<char>| #[trigger] number_word(key) ==> !flag_word(key),
        !number_word("bits"@) && !list_word("bits"@) && !flag_word("bits"@),
        !number_word("metric"@) && !list_word("metric"@) && !flag_word("metric"@),
        "metric"@ != "bits"@,
{
    reveal_strlit("sota3");
    reveal_strlit("sota");
    reveal_strlit("aniso");
    reveal_strlit("pq");
    reveal_strlit("lean");
    reveal_strlit("graph");
    reveal_strlit("max");
    reveal_strlit("queries");
    reveal_strlit("seed");
    reveal_strlit("reps");
    reveal_strlit("query-max");
    reveal_strlit("nlist");
    reveal_strlit("m");
    reveal_strlit("ef-construction");
    reveal_strlit("groups");
    reveal_strlit("window");
    reveal_strlit("sample-db");
    reveal_strlit("sample-q");
    reveal_strlit("decode-bench");
    reveal_strlit("budget-bytes");
    reveal_strlit("shortlist");
    reveal_strlit("nprobe");
    reveal_strlit("ef");
    reveal_strlit("calib");
    reveal_strlit("rerank");
    reveal_strlit("bits");
    reveal_strlit("metric");
    assert("sota3"@.len() == 5 && "sota3"@[0] == 's' && "sota3"@[1] == 'o');
    assert("sota"@.len() == 4 && "sota"@[0] == 's' && "sota"@[1] == 'o');
    assert("aniso"@.len() == 5 && "aniso"@[0] == 'a' && "aniso"@[1] == 'n');
    assert("pq"@.len() == 2 && "pq"@[0] == 'p' && "pq"@[1] == 'q');
    assert("lean"@.len() == 4 && "lean"@[0] == 'l' && "lean"@[1] == 'e');
    assert("graph"@.len() == 5 && "graph"@[0] == 'g' && "graph"@[1] == 'r');
    assert("max"@.len() == 3 && "max"@[0] == 'm' && "max"@[1] == 'a');
    assert("queries"@.len() == 7 && "queries"@[0] == 'q' && "queries"@[1] == 'u');
    assert("seed"@.len() == 4 && "seed"@[0] == 's' && "seed"@[1] == 'e');
    assert("reps"@.len() == 4 && "reps"@[0] == 'r' && "reps"@[1] == 'e');
    assert("query-max"@.len() == 9 && "query-max"@[0] == 'q' && "query-max"@[1] == 'u');
    assert("nlist"@.len() == 5 && "nlist"@[0] == 'n' && "nlist"@[1] == 'l');
    assert("m"@.len() == 1 && "m"@[0] == 'm');
    assert("ef-construction"@.len() == 15 && "ef-construction"@[0] == 'e' && "ef-construction"@[1] == 'f');
    assert("groups"@.len() == 6 && "groups"@[0] == 'g' && "groups"@[1] == 'r');
    assert("window"@.len() == 6 && "window"@[0] == 'w' && "window"@[1] == 'i');
    assert("sample-db"@.len() == 9 && "sample-db"@[0] == 's' && "sample-db"@[1] == 'a');
    assert("sample-q"@.len() == 8 && "sample-q"@[0] == 's' && "sample-q"@[1] == 'a');
    assert("decode-bench"@.len() == 12 && "decode-bench"@[0] == 'd' && "decode-bench"@[1] == 'e');
    assert("budget-bytes"@.len() == 12 && "budget-bytes"@[0] == 'b' && "budget-bytes"@[1] == 'u');
    assert("shortlist"@.len() == 9 && "shortlist"@[0] == 's' && "shortlist"@[1] == 'h');
    assert("nprobe"@.len() == 6 && "nprobe"@[0] == 'n' && "nprobe"@[1] == 'p');
    assert("ef"@.len() == 2 && "ef"@[0] == 'e' && "ef"@[1] == 'f');
    assert("calib"@.len() == 5 && "calib"@[0] == 'c' && "calib"@[1] == 'a');
    assert("rerank"@.len() == 6 && "rerank"@[0] == 'r' && "rerank"@[1] == 'e');
    assert("bits"@.len() == 4 && "bits"@[0] == 'b' && "bits"@[1] == 'i');
    assert("metric"@.len() == 6 && "metric"@[0] == 'm' && "metric"@[1] == 'e');
}

/// An option is known by its word alone.
pub proof fn the_options_are_these(key: Seq<char>)
    ensures
        flag_word(key) <==> key == "sota3"@ || key == "sota"@ || key == "aniso"@ || key == "pq"@
            || key == "lean"@ || key == "graph"@,
        key == "dataset"@ || key == "out"@ || key == "per-query-out"@ || key == "query-file"@ || key
            == "gold-file"@ || key == "metric"@ || key == "backend"@ || key == "codecs"@ || key
            == "fit"@ || key == "shortlist-scorer"@ || key == "shortlist-rnorm"@ || key == "bits"@
            ==> value_word(key),
        number_word(key) || list_word(key) ==> value_word(key),
{
}

} // verus!
