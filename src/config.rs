use vstd::prelude::*;
use vstd::string::StringExecFns;
use std::cmp::Ordering;
use crate::dictionary::compare_words;
use crate::text::strings_view;

verus! {

/// Whether every character of `s` is an ASCII digit.
pub open spec fn all_digits(s: Seq<char>) -> bool {
    forall|k: int| 0 <= k < s.len() ==> '0' <= #[trigger] s[k] && s[k] <= '9'
}

/// The number that the decimal digits `s` write.
pub open spec fn digits_value(s: Seq<char>) -> int
    decreases s.len(),
{
    if s.len() == 0 {
        0
    } else {
        digits_value(s.drop_last()) * 10 + (s.last() as int - '0' as int)
    }
}

/// What a `usize` written in `s` reads as: an optional `+`, then one or more
/// ASCII digits, whose value fits in a `usize`.
pub open spec fn decimal_value(s: Seq<char>) -> Option<usize> {
    let d = if s.len() > 0 && s[0] == '+' { s.drop_first() } else { s };
    if d.len() > 0 && all_digits(d) && digits_value(d) <= usize::MAX {
        Some(digits_value(d) as usize)
    } else {
        None
    }
}

/// Relies on str::parse::<usize>: a value exactly when the text is an
/// optional `+` and decimal digits that fit in a `usize`; else the parse
/// error's message.
#[verifier::external_body]
fn parse_usize(s: &str) -> (r: Result<usize, String>)
    ensures
        r is Ok <==> decimal_value(s@) is Some,
        r matches Ok(v) ==> decimal_value(s@) == Some(v),
{
    s.parse::<usize>().map_err(|e| e.to_string())
}

/// The settings of one run of the generator.
pub struct Config {
    pub input_path: Option<String>,
    pub dictionary_path: Option<String>,
    pub save_path: Option<String>,
    pub amount: usize,
    pub text: Option<String>,
}

/// The words the options go by, short and long.
pub open spec fn is_option(a: Seq<char>, short: Seq<char>, long: Seq<char>) -> bool {
    a == short || a == long
}

/// Whether `arg` is the option written `short` or `long`.
fn is_one_of(arg: &str, short: &str, long: &str) -> (r: bool)
    ensures
        r == is_option(arg@, short@, long@),
{
    match compare_words(arg, short) {
        Ordering::Equal => true,
        _ => match compare_words(arg, long) {
            Ordering::Equal => true,
            _ => false,
        },
    }
}

/// Where reading the options stopped short.
pub enum Stop {
    /// An argument that is no option.
    Unknown(Seq<char>),
    /// A `--amount` value that is no number.
    BadAmount(Seq<char>),
}

/// The options read so far, as plain values.
pub struct Scanned {
    pub input_path: Option<Seq<char>>,
    pub dictionary_path: Option<Seq<char>>,
    pub save_path: Option<Seq<char>>,
    pub amount: usize,
    pub text: Option<Seq<char>>,
    pub stop: Option<Stop>,
}

/// The text of an optional string.
pub open spec fn opt_view(o: Option<String>) -> Option<Seq<char>> {
    match o {
        Some(s) => Some(s@),
        None => None,
    }
}

/// Reads `args` from index `i` on, after `st`: each option takes the
/// argument after it as its value, and the last argument is the text.
pub open spec fn scan(args: Seq<Seq<char>>, i: int, st: Scanned) -> Scanned
    decreases args.len() - i,
{
    if i < 0 || i >= args.len() {
        st
    } else if i + 1 == args.len() {
        Scanned { text: Some(args[i]), ..st }
    } else {
        let a = args[i];
        let v = args[i + 1];
        if is_option(a, "-a"@, "--amount"@) {
            match decimal_value(v) {
                Some(x) => scan(args, i + 2, Scanned { amount: x, ..st }),
                None => Scanned { stop: Some(Stop::BadAmount(v)), ..st },
            }
        } else if is_option(a, "-d"@, "--dictionary"@) {
            scan(args, i + 2, Scanned { dictionary_path: Some(v), ..st })
        } else if is_option(a, "-i"@, "--input"@) {
            scan(args, i + 2, Scanned { input_path: Some(v), ..st })
        } else if is_option(a, "-s"@, "--save"@) {
            scan(args, i + 2, Scanned { save_path: Some(v), ..st })
        } else {
            Scanned { stop: Some(Stop::Unknown(a)), ..st }
        }
    }
}

/// Reads all of `args`, with no option given yet and an amount of ten.
pub open spec fn scan_all(args: Seq<Seq<char>>) -> Scanned {
    scan(args, 0, Scanned {
        input_path: None,
        dictionary_path: None,
        save_path: None,
        amount: 10,
        text: None,
        stop: None,
    })
}

impl Config {
    /// Reads the arguments that follow the program's name: options with
    /// their values, then the text to continue, which is the last argument.
    pub fn parse(args: Vec<String>) -> (r: Result<Self, String>)
        ensures
            ({
                let s = scan_all(strings_view(args@));
                match s.stop {
                    Some(Stop::Unknown(a)) => r matches Err(e) && e@ == a,
                    Some(Stop::BadAmount(v)) => r matches Err(e)
                        && e@.len() >= 13 + v.len()
                        && e@.subrange(0, 13 + v.len() as int) == "cant parse "@ + v + ": "@,
                    None => if s.dictionary_path is None && s.input_path is None {
                        r matches Err(e) && e@ == "-i or -d option are mandatory"@
                    } else if s.save_path is None && s.text is None {
                        r matches Err(e) && e@ == "text not found"@
                    } else if s.save_path is Some && s.dictionary_path is Some {
                        r matches Err(e) && e@ == "-s and -d cannot be used at the same time"@
                    } else {
                        r matches Ok(c) && opt_view(c.input_path) == s.input_path
                            && opt_view(c.dictionary_path) == s.dictionary_path
                            && opt_view(c.save_path) == s.save_path && c.amount == s.amount
                            && opt_view(c.text) == s.text
                    },
                }
            }),
    {
        proof {
            reveal_strlit("-i or -d option are mandatory");
            reveal_strlit("text not found");
            reveal_strlit("-s and -d cannot be used at the same time");
        }
        let ghost t = strings_view(args@);
        let mut dictionary_path: Option<String> = None;
        let mut input_path: Option<String> = None;
        let mut save_path: Option<String> = None;
        let mut amount: usize = 10;
        let mut text: Option<String> = None;
        let n = args.len();
        let mut i: usize = 0;
        while i < n
            invariant_except_break
                text is None,
                scan_all(t) == scan(t, i as int, Scanned {
                    input_path: opt_view(input_path),
                    dictionary_path: opt_view(dictionary_path),
                    save_path: opt_view(save_path),
                    amount: amount,
                    text: opt_view(text),
                    stop: None,
                }),
            invariant
                n == args@.len(),
                t == strings_view(args@),
                i <= n,
            ensures
                scan_all(t) == (Scanned {
                    input_path: opt_view(input_path),
                    dictionary_path: opt_view(dictionary_path),
                    save_path: opt_view(save_path),
                    amount: amount,
                    text: opt_view(text),
                    stop: None,
                }),
            decreases n - i,
        {
            let arg = args[i].as_str();
            assert(t[i as int] == args@[i as int]@);
            if i + 1 == n {
                text = Some(args[i].clone());
                i = i + 1;
                break;
            }
            assert(t[i + 1] == args@[i + 1]@);
            if is_one_of(arg, "-a", "--amount") {
                let value = args[i + 1].as_str();
                match parse_usize(value) {
                    Ok(v) => {
                        amount = v;
                    },
                    Err(e) => {
                        let mut m = "cant parse ".to_owned();
                        m.append(value);
                        m.append(": ");
                        m.append(e.as_str());
                        proof {
                            reveal_strlit("cant parse ");
                            reveal_strlit(": ");
                        }
                        assert("cant parse "@.len() == 11);
                        assert(": "@.len() == 2);
                        assert(m@ =~= "cant parse "@ + value@ + ": "@ + e@);
                        assert(m@.subrange(0, 13 + value@.len() as int) =~= "cant parse "@ + value@ + ": "@);
                        return Err(m);
                    },
                }
            } else if is_one_of(arg, "-d", "--dictionary") {
                dictionary_path = Some(args[i + 1].clone());
            } else if is_one_of(arg, "-i", "--input") {
                input_path = Some(args[i + 1].clone());
            } else if is_one_of(arg, "-s", "--save") {
                save_path = Some(args[i + 1].clone());
            } else {
                return Err(args[i].clone());
            }
            i = i + 2;
        }
        if dictionary_path.is_none() && input_path.is_none() {
            return Err("-i or -d option are mandatory".to_owned());
        }
        if save_path.is_none() && text.is_none() {
            return Err("text not found".to_owned());
        }
        if save_path.is_some() && dictionary_path.is_some() {
            return Err("-s and -d cannot be used at the same time".to_owned());
        }
        Ok(Config { dictionary_path, input_path, save_path, amount, text })
    }
}

} // verus!
