//! The default identifier normalization rules for the emitted language.

use crate::schematic::{NormalizationError, Normalizer};
use crate::strutil::{alnum, alpha, is_alnum, is_alpha, push_char};
use vstd::prelude::*;

verus! {

/// Keeps the ASCII alphanumeric characters.
pub open spec fn filter_alnum(s: Seq<char>) -> Seq<char>
    decreases s.len(),
{
    if s.len() == 0 {
        Seq::empty()
    } else {
        let rest = filter_alnum(s.drop_first());
        if is_alnum(s[0]) {
            seq![s[0]] + rest
        } else {
            rest
        }
    }
}

/// Keeps the ASCII alphanumeric characters and underscores.
pub open spec fn filter_alnum_us(s: Seq<char>) -> Seq<char>
    decreases s.len(),
{
    if s.len() == 0 {
        Seq::empty()
    } else {
        let rest = filter_alnum_us(s.drop_first());
        if is_alnum(s[0]) || s[0] == '_' {
            seq![s[0]] + rest
        } else {
            rest
        }
    }
}

/// Replaces `+` with `P` and `-` with `_` everywhere.
pub open spec fn replace_plus_minus(s: Seq<char>) -> Seq<char> {
    s.map_values(
        |c: char|
            if c == '+' {
                'P'
            } else if c == '-' {
                '_'
            } else {
                c
            },
    )
}

/// Replaces a leading `~` with `n`.
pub open spec fn tilde_fix(s: Seq<char>) -> Seq<char> {
    if s.len() > 0 && s[0] == '~' {
        seq!['n'] + s.drop_first()
    } else {
        s
    }
}

/// Prepends `S` when the name does not start with an ASCII letter.
pub open spec fn letter_fix(f: Seq<char>) -> Seq<char> {
    if !is_alpha(f[0]) {
        seq!['S'] + f
    } else {
        f
    }
}

/// The part and component name rule: keep ASCII alphanumerics, reject the
/// empty result, force a leading letter.
pub open spec fn part_name_spec(s: Seq<char>) -> Option<Seq<char>> {
    let f = filter_alnum(s);
    if f.len() == 0 {
        None
    } else {
        Some(letter_fix(f))
    }
}

/// The net name rule: a leading `~` becomes `n`, `+` becomes `P`, `-`
/// becomes `_`, every other character that is not ASCII alphanumeric or
/// `_` is dropped; the empty result is rejected, a leading non-letter gets
/// an `S` prepended.
pub open spec fn net_name_spec(s: Seq<char>) -> Option<Seq<char>> {
    let f = filter_alnum_us(replace_plus_minus(tilde_fix(s)));
    if f.len() == 0 {
        None
    } else {
        Some(letter_fix(f))
    }
}

/// The port name rule: the signal name, or the pin name if the signal is
/// empty, put through the net name rule.
pub open spec fn port_name_spec(pin: Seq<char>, signal: Seq<char>) -> Option<Seq<char>> {
    if signal.len() == 0 {
        net_name_spec(pin)
    } else {
        net_name_spec(signal)
    }
}

proof fn lemma_filter_alnum_push(s: Seq<char>, x: char)
    ensures
        filter_alnum(s.push(x)) =~= filter_alnum(s) + (if is_alnum(x) {
            seq![x]
        } else {
            Seq::empty()
        }),
    decreases s.len(),
{
    let tail: Seq<char> = if is_alnum(x) {
        seq![x]
    } else {
        Seq::empty()
    };
    if s.len() == 0 {
        assert(s.push(x).drop_first() =~= Seq::<char>::empty());
        assert(s.push(x)[0] == x);
        assert(filter_alnum(Seq::<char>::empty()) =~= Seq::<char>::empty());
        assert(filter_alnum(s.push(x)) =~= tail);
        assert(filter_alnum(s) =~= Seq::<char>::empty());
    } else {
        assert(s.push(x).drop_first() =~= s.drop_first().push(x));
        lemma_filter_alnum_push(s.drop_first(), x);
        assert(s.push(x)[0] == s[0]);
        if is_alnum(s[0]) {
            assert(filter_alnum(s.push(x)) =~= seq![s[0]] + filter_alnum(s.drop_first().push(x)));
            assert(seq![s[0]] + (filter_alnum(s.drop_first()) + tail) =~= (seq![s[0]]
                + filter_alnum(s.drop_first())) + tail);
        } else {
            assert(filter_alnum(s.push(x)) =~= filter_alnum(s.drop_first().push(x)));
        }
    }
}

proof fn lemma_filter_alnum_us_push(s: Seq<char>, x: char)
    ensures
        filter_alnum_us(s.push(x)) =~= filter_alnum_us(s) + (if is_alnum(x) || x == '_' {
            seq![x]
        } else {
            Seq::empty()
        }),
    decreases s.len(),
{
    let tail: Seq<char> = if is_alnum(x) || x == '_' {
        seq![x]
    } else {
        Seq::empty()
    };
    if s.len() == 0 {
        assert(s.push(x).drop_first() =~= Seq::<char>::empty());
        assert(s.push(x)[0] == x);
        assert(filter_alnum_us(Seq::<char>::empty()) =~= Seq::<char>::empty());
        assert(filter_alnum_us(s.push(x)) =~= tail);
        assert(filter_alnum_us(s) =~= Seq::<char>::empty());
    } else {
        assert(s.push(x).drop_first() =~= s.drop_first().push(x));
        lemma_filter_alnum_us_push(s.drop_first(), x);
        assert(s.push(x)[0] == s[0]);
        if is_alnum(s[0]) || s[0] == '_' {
            assert(filter_alnum_us(s.push(x)) =~= seq![s[0]] + filter_alnum_us(
                s.drop_first().push(x),
            ));
            assert(seq![s[0]] + (filter_alnum_us(s.drop_first()) + tail) =~= (seq![s[0]]
                + filter_alnum_us(s.drop_first())) + tail);
        } else {
            assert(filter_alnum_us(s.push(x)) =~= filter_alnum_us(s.drop_first().push(x)));
        }
    }
}

/// The strategy that produces identifiers of the emitted language.
pub struct AtopileNormalizer {}

impl Default for AtopileNormalizer {
    fn default() -> (r: AtopileNormalizer) {
        AtopileNormalizer {  }
    }
}

/// Runs the shared net/port rule on one raw name; `None` when nothing
/// usable is left.
#[verifier::loop_isolation(false)]
fn net_rule(name: &str) -> (r: Option<String>)
    ensures
        r is Some <==> net_name_spec(name@) is Some,
        r matches Some(v) ==> net_name_spec(name@) == Some(v@),
{
    let len = name.unicode_len();
    let ghost t = tilde_fix(name@);
    let mut out = String::new();
    let mut i: usize = 0;
    proof {
        assert(t.len() == name@.len());
        assert(replace_plus_minus(t.take(0)) =~= Seq::<char>::empty());
    }
    while i < len
        invariant
            i <= len,
            out@ == filter_alnum_us(replace_plus_minus(t.take(i as int))),
        decreases len - i,
    {
        let c0 = name.get_char(i);
        let c1 = if i == 0 && c0 == '~' {
            'n'
        } else {
            c0
        };
        proof {
            assert(t[i as int] == c1);
        }
        let c = if c1 == '+' {
            'P'
        } else if c1 == '-' {
            '_'
        } else {
            c1
        };
        if alnum(c) || c == '_' {
            push_char(&mut out, c);
        }
        proof {
            assert(t.take(i + 1) =~= t.take(i as int).push(t[i as int]));
            assert(replace_plus_minus(t.take(i + 1)) =~= replace_plus_minus(
                t.take(i as int),
            ).push(c));
            lemma_filter_alnum_us_push(replace_plus_minus(t.take(i as int)), c);
        }
        i = i + 1;
    }
    proof {
        assert(t.take(len as int) =~= t);
    }
    if out.as_str().unicode_len() == 0 {
        return None;
    }
    let first = out.as_str().get_char(0);
    if alpha(first) {
        Some(out)
    } else {
        let mut prefixed = String::new();
        push_char(&mut prefixed, 'S');
        prefixed.append(out.as_str());
        proof {
            assert(prefixed@ =~= seq!['S'] + out@);
        }
        Some(prefixed)
    }
}

impl Normalizer for AtopileNormalizer {
    open spec fn spec_component_name(&self, name: Seq<char>) -> Option<Seq<char>> {
        part_name_spec(name)
    }

    open spec fn spec_net_name(&self, name: Seq<char>) -> Option<Seq<char>> {
        net_name_spec(name)
    }

    open spec fn spec_part_name(&self, name: Seq<char>) -> Option<Seq<char>> {
        part_name_spec(name)
    }

    open spec fn spec_port_name(&self, pin: Seq<char>, signal: Seq<char>) -> Option<Seq<char>> {
        port_name_spec(pin, signal)
    }

    /// Parts and components share one name normalization rule.
    fn normalize_component_name(&self, name: &str) -> (r: Result<String, NormalizationError>) {
        self.normalize_part_name(name)
    }

    fn normalize_net_name(&self, name: &str) -> (r: Result<String, NormalizationError>) {
        match net_rule(name) {
            Some(v) => Ok(v),
            None => Err(NormalizationError::InvalidName(name.to_owned())),
        }
    }

    #[verifier::loop_isolation(false)]
    fn normalize_part_name(&self, name: &str) -> (r: Result<String, NormalizationError>) {
        let len = name.unicode_len();
        let mut out = String::new();
        let mut i: usize = 0;
        proof {
            assert(filter_alnum(name@.take(0)) =~= Seq::<char>::empty());
        }
        while i < len
            invariant
                i <= len,
                out@ == filter_alnum(name@.take(i as int)),
            decreases len - i,
        {
            let c = name.get_char(i);
            if alnum(c) {
                push_char(&mut out, c);
            }
            proof {
                assert(name@.take(i + 1) =~= name@.take(i as int).push(name@[i as int]));
                lemma_filter_alnum_push(name@.take(i as int), c);
            }
            i = i + 1;
        }
        proof {
            assert(name@.take(len as int) =~= name@);
        }
        if out.as_str().unicode_len() == 0 {
            return Err(NormalizationError::InvalidName(name.to_owned()));
        }
        let first = out.as_str().get_char(0);
        if alpha(first) {
            Ok(out)
        } else {
            let mut prefixed = String::new();
            push_char(&mut prefixed, 'S');
            prefixed.append(out.as_str());
            proof {
                assert(prefixed@ =~= seq!['S'] + out@);
            }
            Ok(prefixed)
        }
    }

    fn normalize_port_name(&self, pin_name: &str, signal_name: &str) -> (r: Result<
        String,
        NormalizationError,
    >) {
        let source = if signal_name.unicode_len() == 0 {
            pin_name
        } else {
            signal_name
        };
        match net_rule(source) {
            Some(v) => Ok(v),
            None => Err(NormalizationError::InvalidName(signal_name.to_owned())),
        }
    }
}

} // verus!
