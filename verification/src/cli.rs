//! The command line's `--flag value` pairs and its one switch, `--lenient`.
//!
//! Good enough for a handful of flags and one switch; not meant to grow into
//! a general option parser.
use vstd::prelude::*;

use crate::text::{chars_of, parse_u32, parse_u32_text, push_str, range_eq, string_of};

verus! {

/// The flags of one command line: `--name value` pairs in the order given,
/// and the switches that were set.
pub struct Flags {
    pub values: Vec<(String, String)>,
    pub switches: Vec<String>,
}

pub ghost struct FlagsView {
    pub values: Seq<(Seq<char>, Seq<char>)>,
    pub switches: Seq<Seq<char>>,
}

pub open spec fn strings_view(v: Seq<String>) -> Seq<Seq<char>> {
    v.map_values(|s: String| s@)
}

pub open spec fn pairs_view(v: Seq<(String, String)>) -> Seq<(Seq<char>, Seq<char>)> {
    v.map_values(|p: (String, String)| (p.0@, p.1@))
}

impl View for Flags {
    type V = FlagsView;

    open spec fn view(&self) -> FlagsView {
        FlagsView { values: pairs_view(self.values@), switches: strings_view(self.switches@) }
    }
}

/// An argument of the form `--name`.
pub open spec fn is_flag(arg: Seq<char>) -> bool {
    arg.len() >= 2 && arg[0] == '-' && arg[1] == '-'
}

pub open spec fn unexpected_argument_message(arg: Seq<char>) -> Seq<char> {
    "unexpected argument: "@ + arg
}

pub open spec fn needs_value_message(name: Seq<char>) -> Seq<char> {
    "--"@ + name + " needs a value"@
}

pub open spec fn missing_flag_message(name: Seq<char>) -> Seq<char> {
    "missing required flag --"@ + name
}

pub open spec fn not_whole_message(name: Seq<char>) -> Seq<char> {
    "--"@ + name + " must be a whole number"@
}

pub open spec fn not_byte_message(name: Seq<char>) -> Seq<char> {
    "--"@ + name + " must be a number from 0 to 255"@
}

/// Reads `args` from position `i` on, given the values and switches read
/// so far. `--lenient` is a switch; every other `--name` takes the next
/// argument as its value, whatever it looks like.
pub open spec fn scan_flags(
    args: Seq<Seq<char>>,
    i: nat,
    values: Seq<(Seq<char>, Seq<char>)>,
    switches: Seq<Seq<char>>,
) -> Result<FlagsView, Seq<char>>
    decreases args.len() - i,
{
    if i >= args.len() {
        Ok(FlagsView { values, switches })
    } else {
        let arg = args[i as int];
        if !is_flag(arg) {
            Err(unexpected_argument_message(arg))
        } else {
            let name = arg.subrange(2, arg.len() as int);
            if name == "lenient"@ {
                scan_flags(args, i + 1, values, switches.push(name))
            } else if i + 1 >= args.len() {
                Err(needs_value_message(name))
            } else {
                scan_flags(args, i + 2, values.push((name, args[i + 1 as int])), switches)
            }
        }
    }
}

/// The flags of a whole command line.
pub open spec fn flags_of(args: Seq<Seq<char>>) -> Result<FlagsView, Seq<char>> {
    scan_flags(args, 0, Seq::empty(), Seq::empty())
}

/// The value given for the first `--name` flag, if any.
pub open spec fn lookup_value(values: Seq<(Seq<char>, Seq<char>)>, name: Seq<char>) -> Option<
    Seq<char>,
>
    decreases values.len(),
{
    if values.len() == 0 {
        None
    } else if values[0].0 == name {
        Some(values[0].1)
    } else {
        lookup_value(values.drop_first(), name)
    }
}

/// What `str::parse::<u8>` gives: the `u32` grammar with a bound of 255.
pub open spec fn parse_u8_text(s: Seq<char>) -> Option<u8> {
    match parse_u32_text(s) {
        Some(n) => if n <= 255 {
            Some(n as u8)
        } else {
            None
        },
        None => None,
    }
}

/// Splits a command line (without the program name and the command) into
/// flags.
pub fn parse_flags(args: &Vec<String>) -> (r: Result<Flags, String>)
    ensures
        match flags_of(strings_view(args@)) {
            Ok(f) => r matches Ok(x) && x@ == f,
            Err(m) => r matches Err(x) && x@ == m,
        },
{
    let ghost a = strings_view(args@);
    let mut values: Vec<(String, String)> = Vec::new();
    let mut switches: Vec<String> = Vec::new();
    let lenient = chars_of("lenient");
    let mut i: usize = 0;
    proof {
        assert(pairs_view(values@) =~= Seq::<(Seq<char>, Seq<char>)>::empty());
        assert(strings_view(switches@) =~= Seq::<Seq<char>>::empty());
    }
    while i < args.len()
        invariant
            i <= args.len(),
            a == strings_view(args@),
            a.len() == args@.len(),
            lenient@ == "lenient"@,
            flags_of(a) == scan_flags(a, i as nat, pairs_view(values@), strings_view(switches@)),
        decreases args.len() - i,
    {
        let arg = chars_of(args[i].as_str());
        assert(arg@ == a[i as int]);
        if !(arg.len() >= 2 && arg[0] == '-' && arg[1] == '-') {
            let mut m = String::new();
            push_str(&mut m, "unexpected argument: ");
            push_str(&mut m, args[i].as_str());
            return Err(m);
        }
        let name = string_of(&arg, 2, arg.len());
        if range_eq(&arg, 2, arg.len(), &lenient) {
            let ghost before = strings_view(switches@);
            switches.push(name);
            assert(strings_view(switches@) =~= before.push(arg@.subrange(2, arg@.len() as int)));
            i += 1;
        } else if i + 1 >= args.len() {
            let mut m = String::new();
            push_str(&mut m, "--");
            push_str(&mut m, name.as_str());
            push_str(&mut m, " needs a value");
            return Err(m);
        } else {
            let ghost before = pairs_view(values@);
            let value = args[i + 1].clone();
            assert(value@ == a[i + 1]);
            values.push((name, value));
            assert(pairs_view(values@) =~= before.push(
                (arg@.subrange(2, arg@.len() as int), a[i + 1]),
            ));
            i += 2;
        }
    }
    Ok(Flags { values, switches })
}

impl Flags {
    /// The value of the first `--name` flag.
    pub fn get_str(&self, name: &str) -> (r: Result<&str, String>)
        ensures
            match lookup_value(self@.values, name@) {
                Some(v) => r matches Ok(x) && x@ == v,
                None => r matches Err(m) && m@ == missing_flag_message(name@),
            },
    {
        let ghost vs = self@.values;
        let key = chars_of(name);
        let mut i: usize = 0;
        assert(vs.skip(0) =~= vs);
        while i < self.values.len()
            invariant
                i <= self.values.len(),
                vs == self@.values,
                vs.len() == self.values@.len(),
                key@ == name@,
                lookup_value(vs, name@) == lookup_value(vs.skip(i as int), name@),
            decreases self.values.len() - i,
        {
            let k = chars_of(self.values[i].0.as_str());
            assert(vs.skip(i as int)[0] == vs[i as int]);
            if crate::text::chars_eq(&k, &key) {
                return Ok(self.values[i].1.as_str());
            }
            assert(vs.skip(i as int).drop_first() =~= vs.skip(i + 1));
            i += 1;
        }
        assert(vs.skip(i as int).len() == 0);
        let mut m = String::new();
        push_str(&mut m, "missing required flag --");
        push_str(&mut m, name);
        Err(m)
    }

    /// The value of `--name` read as a `u32`.
    pub fn get_u32(&self, name: &str) -> (r: Result<u32, String>)
        ensures
            match lookup_value(self@.values, name@) {
                None => r matches Err(m) && m@ == missing_flag_message(name@),
                Some(v) => match parse_u32_text(v) {
                    Some(n) => r == Ok::<u32, String>(n),
                    None => r matches Err(m) && m@ == not_whole_message(name@),
                },
            },
    {
        let text = match self.get_str(name) {
            Ok(t) => t,
            Err(m) => return Err(m),
        };
        let v = chars_of(text);
        assert(v@.subrange(0, v@.len() as int) =~= v@);
        match parse_u32(&v, 0, v.len()) {
            Some(n) => Ok(n),
            None => {
                let mut m = String::new();
                push_str(&mut m, "--");
                push_str(&mut m, name);
                push_str(&mut m, " must be a whole number");
                Err(m)
            },
        }
    }

    /// The value of `--name` read as a `u8`.
    pub fn get_u8(&self, name: &str) -> (r: Result<u8, String>)
        ensures
            match lookup_value(self@.values, name@) {
                None => r matches Err(m) && m@ == missing_flag_message(name@),
                Some(v) => match parse_u8_text(v) {
                    Some(n) => r == Ok::<u8, String>(n),
                    None => r matches Err(m) && m@ == not_byte_message(name@),
                },
            },
    {
        let text = match self.get_str(name) {
            Ok(t) => t,
            Err(m) => return Err(m),
        };
        let v = chars_of(text);
        assert(v@.subrange(0, v@.len() as int) =~= v@);
        match parse_u32(&v, 0, v.len()) {
            Some(n) => if n <= 255 {
                return Ok(n as u8);
            },
            None => {},
        }
        let mut m = String::new();
        push_str(&mut m, "--");
        push_str(&mut m, name);
        push_str(&mut m, " must be a number from 0 to 255");
        Err(m)
    }

    /// Whether the switch `--name` was given.
    pub fn has_switch(&self, name: &str) -> (b: bool)
        ensures
            b == self@.switches.contains(name@),
    {
        let key = chars_of(name);
        let ghost ss = self@.switches;
        let mut i: usize = 0;
        while i < self.switches.len()
            invariant
                i <= self.switches.len(),
                ss == self@.switches,
                ss.len() == self.switches@.len(),
                key@ == name@,
                forall|j: int| 0 <= j < i ==> ss[j] != name@,
            decreases self.switches.len() - i,
        {
            let k = chars_of(self.switches[i].as_str());
            if crate::text::chars_eq(&k, &key) {
                assert(ss[i as int] == name@);
                return true;
            }
            i += 1;
        }
        false
    }
}

} // verus!
