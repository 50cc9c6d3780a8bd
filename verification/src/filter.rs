use vstd::prelude::*;
use vstd::string::*;
use crate::text::{
    eq_ignore_case, last_index_of, lemma_last_index_of, find_last, str_eq_ignore_case, str_eq,
    split_commas, split_trim,
};

verus! {

#[verifier::external_type_specification]
#[verifier::external_body]
pub struct ExRegex(regex::Regex);

/// The pattern string a compiled regex was built from. Relies on
/// regex::Regex keeping its pattern verbatim (regex::Regex::as_str).
pub uninterp spec fn regex_pattern(re: regex::Regex) -> Seq<char>;

/// Whether a pattern accepts a text. regex matching is a function of the
/// pattern and the haystack alone, so the outcome may bear a name.
pub uninterp spec fn regex_match(pattern: Seq<char>, text: Seq<char>) -> bool;

/// Whether a pattern string is a valid regular expression, so that compiling
/// it succeeds; a function of the pattern alone.
pub uninterp spec fn regex_compiles(pattern: Seq<char>) -> bool;

/// Relies on regex::Regex::new: compilation succeeds exactly on the valid
/// patterns, deterministically in the pattern, and the compiled value keeps
/// the pattern it was built from.
#[verifier::external_body]
fn regex_new(pattern: &str) -> (r: Option<regex::Regex>)
    ensures
        r is Some <==> regex_compiles(pattern@),
        r matches Some(re) ==> regex_pattern(re) == pattern@,
{
    regex::Regex::new(pattern).ok()
}

/// Relies on regex::Regex::is_match: the outcome depends only on the pattern
/// the regex was compiled from and on the haystack.
#[verifier::external_body]
fn regex_is_match(re: &regex::Regex, text: &str) -> (r: bool)
    ensures
        r == regex_match(regex_pattern(*re), text@),
{
    re.is_match(text)
}

/// The filtering options a scan applies to every discovered file. An unset
/// field places no constraint on its dimension.
pub struct FilterOptions {
    pub min_size: Option<u64>,
    pub max_size: Option<u64>,
    pub extensions: Option<Vec<String>>,
    pub regex: Option<regex::Regex>,
}

/// The mathematical content of a `FilterOptions`: the compiled regex is
/// represented by the pattern it was built from.
#[verifier::ext_equal]
pub struct FilterModel {
    pub min_size: Option<u64>,
    pub max_size: Option<u64>,
    pub extensions: Option<Seq<Seq<char>>>,
    pub pattern: Option<Seq<char>>,
}

impl View for FilterOptions {
    type V = FilterModel;

    open spec fn view(&self) -> FilterModel {
        FilterModel {
            min_size: self.min_size,
            max_size: self.max_size,
            extensions: match self.extensions {
                Some(v) => Some(v@.map_values(|e: String| e@)),
                None => None,
            },
            pattern: match self.regex {
                Some(re) => Some(regex_pattern(re)),
                None => None,
            },
        }
    }
}

/// The bare file name: what follows the last '/' in the path, possibly empty.
pub open spec fn file_name_of(path: Seq<char>) -> Seq<char> {
    path.skip(last_index_of(path, '/') + 1)
}

/// The extension: what follows the last '.' in the file name, or nothing
/// when the name has no dot.
pub open spec fn extension_of(path: Seq<char>) -> Option<Seq<char>> {
    let name = file_name_of(path);
    let dot = last_index_of(name, '.');
    if dot >= 0 {
        Some(name.skip(dot + 1))
    } else {
        None
    }
}

/// The size gate: a known byte length must satisfy whichever bounds are set;
/// an unknown length is admitted rather than rejected.
pub open spec fn size_gate(m: FilterModel, file_size: Option<u64>) -> bool {
    match file_size {
        None => true,
        Some(n) => (m.min_size matches Some(min) ==> n >= min) && (m.max_size matches Some(max)
            ==> n <= max),
    }
}

/// The extension gate: when an allow-list is set, the path's extension must
/// match one entry up to ASCII case; a path without an extension fails.
pub open spec fn extension_gate(m: FilterModel, path: Seq<char>) -> bool {
    match m.extensions {
        None => true,
        Some(exts) => match extension_of(path) {
            Some(ext) => exists|i: int| 0 <= i < exts.len() && eq_ignore_case(exts[i], ext),
            None => false,
        },
    }
}

/// The pattern gate: when a name pattern is set, the bare file name must
/// match it; a path without a file name fails.
pub open spec fn pattern_gate(m: FilterModel, path: Seq<char>) -> bool {
    match m.pattern {
        None => true,
        Some(p) => {
            let name = file_name_of(path);
            if name.len() == 0 {
                false
            } else {
                regex_match(p, name)
            }
        },
    }
}

/// A file qualifies exactly when it passes all three independent gates.
pub open spec fn spec_matches(m: FilterModel, path: Seq<char>, file_size: Option<u64>) -> bool {
    size_gate(m, file_size) && extension_gate(m, path) && pattern_gate(m, path)
}

/// The bare file name of a path.
pub fn file_name<'a>(path: &'a str) -> (r: &'a str)
    ensures
        r@ == file_name_of(path@),
{
    let len = path.unicode_len();
    match find_last(path, '/') {
        Some(i) => {
            proof {
                lemma_last_index_of(path@, '/');
            }
            path.substring_char(i + 1, len)
        },
        None => {
            proof {
                assert(path@.skip(0) =~= path@);
            }
            path
        },
    }
}

impl FilterOptions {
    /// Whether a file, named by its path and its byte length where that
    /// could be read, passes every configured gate.
    pub fn matches(&self, path: &str, file_size: Option<u64>) -> (r: bool)
        ensures
            r == spec_matches(self@, path@, file_size),
    {
        self.check_size(file_size) && self.check_extension(path) && self.check_regex(path)
    }

    /// The size gate alone.
    pub fn check_size(&self, file_size: Option<u64>) -> (r: bool)
        ensures
            r == size_gate(self@, file_size),
    {
        match file_size {
            None => true,
            Some(n) => {
                let mut ok = true;
                if let Some(min) = self.min_size {
                    if n < min {
                        ok = false;
                    }
                }
                if let Some(max) = self.max_size {
                    if n > max {
                        ok = false;
                    }
                }
                ok
            },
        }
    }

    /// The extension gate alone.
    #[verifier::loop_isolation(false)]
    pub fn check_extension(&self, path: &str) -> (r: bool)
        ensures
            r == extension_gate(self@, path@),
    {
        match &self.extensions {
            None => true,
            Some(exts) => {
                let name = file_name(path);
                match find_last(name, '.') {
                    None => false,
                    Some(dot) => {
                        proof {
                            lemma_last_index_of(name@, '.');
                        }
                        let nlen = name.unicode_len();
                        let ext = name.substring_char(dot + 1, nlen);
                        let ghost extv = extension_of(path@)->0;
                        proof {
                            assert(ext@ =~= extv);
                        }
                        let mut i: usize = 0;
                        while i < exts.len()
                            invariant
                                self.extensions matches Some(v) && v == *exts,
                                ext@ == extv,
                                i <= exts.len(),
                                forall|j: int| 0 <= j < i ==> !eq_ignore_case(exts@[j]@, extv),
                            decreases exts.len() - i,
                        {
                            if str_eq_ignore_case(exts[i].as_str(), ext) {
                                proof {
                                    let mapped = self@.extensions->0;
                                    assert(mapped[i as int] == exts@[i as int]@);
                                    assert(eq_ignore_case(mapped[i as int], extv));
                                    assert(extension_gate(self@, path@));
                                }
                                return true;
                            }
                            i = i + 1;
                        }
                        proof {
                            let mapped = self@.extensions->0;
                            assert forall|j: int| 0 <= j < mapped.len() implies !(#[trigger] eq_ignore_case(
                                mapped[j],
                                extv,
                            )) by {
                                assert(mapped[j] == exts@[j]@);
                            }
                            assert(!extension_gate(self@, path@));
                        }
                        false
                    },
                }
            },
        }
    }

    /// The pattern gate alone.
    pub fn check_regex(&self, path: &str) -> (r: bool)
        ensures
            r == pattern_gate(self@, path@),
    {
        match &self.regex {
            None => true,
            Some(re) => {
                let name = file_name(path);
                if name.unicode_len() == 0 {
                    false
                } else {
                    regex_is_match(re, name)
                }
            },
        }
    }
}

/// Match-all options: every field unset, so every gate passes.
impl Default for FilterOptions {
    fn default() -> (r: Self)
        ensures
            r.min_size is None,
            r.max_size is None,
            r.extensions is None,
            r.regex is None,
    {
        FilterOptions { min_size: None, max_size: None, extensions: None, regex: None }
    }
}

/// A decimal digit.
pub open spec fn is_digit(c: char) -> bool {
    48 <= c as int <= 57
}

/// The value of a decimal digit.
pub open spec fn digit_val(c: char) -> int {
    c as int - 48
}

/// Whether every character is a decimal digit.
pub open spec fn all_digits(s: Seq<char>) -> bool {
    forall|i: int| 0 <= i < s.len() ==> is_digit(s[i])
}

/// The value of a digit string.
pub open spec fn digits_val(s: Seq<char>) -> int
    decreases s.len(),
{
    if s.len() == 0 {
        0
    } else {
        digits_val(s.drop_last()) * 10 + digit_val(s.last())
    }
}

/// A well-formed size bound: at least one digit, nothing else, and a value
/// that fits in 64 bits.
pub open spec fn parses_u64(s: Seq<char>) -> bool {
    s.len() > 0 && all_digits(s) && digits_val(s) <= u64::MAX
}

proof fn lemma_digits_val_nonneg(s: Seq<char>)
    requires
        all_digits(s),
    ensures
        digits_val(s) >= 0,
    decreases s.len(),
{
    if s.len() > 0 {
        assert(forall|i: int| 0 <= i < s.len() - 1 ==> s.drop_last()[i] == s[i]);
        lemma_digits_val_nonneg(s.drop_last());
    }
}

proof fn lemma_digits_val_mono(s: Seq<char>, i: int)
    requires
        all_digits(s),
        0 <= i <= s.len(),
    ensures
        digits_val(s.take(i)) <= digits_val(s),
    decreases s.len() - i,
{
    if i == s.len() {
        assert(s.take(i) =~= s);
    } else {
        assert(s.take(i + 1).drop_last() =~= s.take(i));
        assert(s.take(i + 1).last() == s[i]);
        assert(forall|j: int| 0 <= j < i ==> s.take(i)[j] == s[j]);
        lemma_digits_val_nonneg(s.take(i));
        assert(digits_val(s.take(i)) <= digits_val(s.take(i + 1)));
        lemma_digits_val_mono(s, i + 1);
    }
}

/// Parses a decimal byte count as a size bound is given on the command line:
/// digits only; empty, non-digit or overflowing input is rejected.
pub fn parse_u64(s: &str) -> (r: Option<u64>)
    ensures
        match r {
            Some(v) => parses_u64(s@) && v as int == digits_val(s@),
            None => !parses_u64(s@),
        },
{
    let len = s.unicode_len();
    if len == 0 {
        return None;
    }
    let mut acc: u64 = 0;
    let mut i: usize = 0;
    while i < len
        invariant
            len == s@.len(),
            i <= len,
            all_digits(s@.take(i as int)),
            acc as int == digits_val(s@.take(i as int)),
        decreases len - i,
    {
        let c = s.get_char(i);
        let cv = c as u32;
        if cv < 48 || cv > 57 {
            proof {
                assert(!is_digit(s@[i as int]));
            }
            return None;
        }
        let d = (cv - 48) as u64;
        proof {
            assert(s@.take(i + 1).drop_last() =~= s@.take(i as int));
            assert(s@.take(i + 1).last() == s@[i as int]);
            assert(forall|j: int| 0 <= j < i ==> s@.take(i + 1)[j] == s@.take(i as int)[j]);
        }
        let wide: u128 = acc as u128 * 10 + d as u128;
        if wide > u64::MAX as u128 {
            proof {
                if all_digits(s@) {
                    assert(digits_val(s@.take(i + 1)) == wide as int);
                    lemma_digits_val_mono(s@, i + 1);
                }
            }
            return None;
        }
        acc = wide as u64;
        i = i + 1;
    }
    proof {
        assert(s@.take(len as int) =~= s@);
    }
    Some(acc)
}

/// The value a size flag receives from the argument that follows it, when
/// one follows and it is well-formed.
pub open spec fn opt_u64_of(rest: Seq<Seq<char>>) -> Option<u64> {
    if rest.len() >= 2 && parses_u64(rest[1]) {
        Some(digits_val(rest[1]) as u64)
    } else {
        None
    }
}

/// The allow-list an extension flag receives from the argument that follows.
pub open spec fn opt_exts_of(rest: Seq<Seq<char>>) -> Option<Seq<Seq<char>>> {
    if rest.len() >= 2 {
        Some(split_commas(rest[1]))
    } else {
        None
    }
}

/// The pattern a regex flag receives from the argument that follows, when
/// one follows and it compiles.
pub open spec fn opt_pattern_of(rest: Seq<Seq<char>>) -> Option<Seq<char>> {
    if rest.len() >= 2 && regex_compiles(rest[1]) {
        Some(rest[1])
    } else {
        None
    }
}

/// Options with every field unset.
pub open spec fn empty_filter() -> FilterModel {
    FilterModel { min_size: None, max_size: None, extensions: None, pattern: None }
}

/// The options that remain after walking the argument list from a given
/// state: a recognized flag consumes itself and its value (when a value
/// follows) and overwrites its field; anything else is skipped.
pub open spec fn parse_from(rest: Seq<Seq<char>>, acc: FilterModel) -> FilterModel
    decreases rest.len(),
{
    if rest.len() == 0 {
        acc
    } else {
        let step: int = if rest.len() >= 2 {
            2
        } else {
            1
        };
        if rest.first() == "--min"@ {
            parse_from(rest.skip(step), FilterModel { min_size: opt_u64_of(rest), ..acc })
        } else if rest.first() == "--max"@ {
            parse_from(rest.skip(step), FilterModel { max_size: opt_u64_of(rest), ..acc })
        } else if rest.first() == "--ext"@ {
            parse_from(rest.skip(step), FilterModel { extensions: opt_exts_of(rest), ..acc })
        } else if rest.first() == "--regex"@ {
            parse_from(rest.skip(step), FilterModel { pattern: opt_pattern_of(rest), ..acc })
        } else {
            parse_from(rest.skip(1), acc)
        }
    }
}

/// What a whole argument list parses to, starting from match-all options.
pub open spec fn spec_parse_filter(args: Seq<Seq<char>>) -> FilterModel {
    parse_from(args, empty_filter())
}

/// Reads filtering options from command-line argument strings: `--min` and
/// `--max` take a byte count, `--ext` a comma-separated allow-list, and
/// `--regex` a file-name pattern. A malformed or missing value leaves its
/// field unset; unrecognized arguments are skipped.
#[verifier::loop_isolation(false)]
pub fn parse_filter_options(args: &[String]) -> (r: FilterOptions)
    ensures
        r@ == spec_parse_filter(args@.map_values(|a: String| a@)),
{
    let ghost argsv = args@.map_values(|a: String| a@);
    let mut options: FilterOptions = Default::default();
    proof {
        assert(argsv.skip(0) =~= argsv);
        assert(options@ =~= empty_filter());
    }
    let mut i: usize = 0;
    while i < args.len()
        invariant
            i <= argsv.len(),
            spec_parse_filter(argsv) == parse_from(argsv.skip(i as int), options@),
        decreases argsv.len() - i,
    {
        let ghost rest = argsv.skip(i as int);
        let ghost before = options@;
        proof {
            assert(rest.first() == args@[i as int]@);
            if i + 1 < args.len() {
                assert(rest[1] == args@[i as int + 1]@);
                assert(rest.skip(2) =~= argsv.skip(i + 2));
            } else if i + 1 == args.len() {
                assert(rest.len() == 1);
            }
            assert(rest.skip(1) =~= argsv.skip(i + 1));
        }
        let arg = args[i].as_str();
        if str_eq(arg, "--min") {
            if i + 1 < args.len() {
                options.min_size = parse_u64(args[i + 1].as_str());
                proof {
                    assert(options@ =~= FilterModel { min_size: opt_u64_of(rest), ..before });
                }
                i = i + 2;
            } else {
                options.min_size = None;
                proof {
                    assert(options@ =~= FilterModel { min_size: opt_u64_of(rest), ..before });
                }
                i = i + 1;
            }
        } else if str_eq(arg, "--max") {
            if i + 1 < args.len() {
                options.max_size = parse_u64(args[i + 1].as_str());
                proof {
                    assert(options@ =~= FilterModel { max_size: opt_u64_of(rest), ..before });
                }
                i = i + 2;
            } else {
                options.max_size = None;
                proof {
                    assert(options@ =~= FilterModel { max_size: opt_u64_of(rest), ..before });
                }
                i = i + 1;
            }
        } else if str_eq(arg, "--ext") {
            if i + 1 < args.len() {
                options.extensions = Some(split_trim(args[i + 1].as_str()));
                proof {
                    assert(options@.extensions->0 =~= split_commas(rest[1]));
                    assert(options@ =~= FilterModel { extensions: opt_exts_of(rest), ..before });
                }
                i = i + 2;
            } else {
                options.extensions = None;
                proof {
                    assert(options@ =~= FilterModel { extensions: opt_exts_of(rest), ..before });
                }
                i = i + 1;
            }
        } else if str_eq(arg, "--regex") {
            if i + 1 < args.len() {
                options.regex = regex_new(args[i + 1].as_str());
                proof {
                    assert(options@ =~= FilterModel { pattern: opt_pattern_of(rest), ..before });
                }
                i = i + 2;
            } else {
                options.regex = None;
                proof {
                    assert(options@ =~= FilterModel { pattern: opt_pattern_of(rest), ..before });
                }
                i = i + 1;
            }
        } else {
            i = i + 1;
        }
    }
    proof {
        assert(argsv.skip(argsv.len() as int).len() == 0);
    }
    options
}

/// The gates are independent: relaxing any constraint to "unset" never
/// rejects a file that passed before.
pub proof fn lemma_relaxing_preserves_match(
    m1: FilterModel,
    m2: FilterModel,
    path: Seq<char>,
    file_size: Option<u64>,
)
    requires
        m2.min_size is None || m2.min_size == m1.min_size,
        m2.max_size is None || m2.max_size == m1.max_size,
        m2.extensions is None || m2.extensions == m1.extensions,
        m2.pattern is None || m2.pattern == m1.pattern,
        spec_matches(m1, path, file_size),
    ensures
        spec_matches(m2, path, file_size),
{
}

} // verus!
