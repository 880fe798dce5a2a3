//! Classification of command-line arguments.
//!
//! The process wrapper walks its arguments once and sorts each into one of
//! five shapes; everything that is not recognized is handed on to the
//! compiler unchanged.  The classification itself is pure text logic and
//! lives here; reading the argument list and acting on the classified values
//! is the caller's business.

use vstd::prelude::*;

use crate::bytes::find_first;
use crate::symbols::EQUALS;

verus! {

/// ASCII '-', the flag marker.
pub const DASH: u8 = 45;

/// ASCII 'I', of the include flag.
pub const INCLUDE_LETTER: u8 = 73;

/// The shape of one command-line argument.
pub enum ParsedArg {
    /// No leading dash: the path of a schema file to compile.
    ProtoFile(Vec<u8>),
    /// `-I<dir>`: an include directory, the flag stripped.
    Include(Vec<u8>),
    /// The service-generation switch.
    TonicFlag,
    /// A dashed argument without `=`: passed through to the compiler.
    Plain(Vec<u8>),
    /// A dashed `key=value` argument, split at the first `=`.
    KeyValue(Vec<u8>, Vec<u8>),
}

/// The shape of `ParsedArg`, over byte sequences.
pub ghost enum SpecArg {
    ProtoFile(Seq<u8>),
    Include(Seq<u8>),
    TonicFlag,
    Plain(Seq<u8>),
    KeyValue(Seq<u8>, Seq<u8>),
}

/// The bytes of `"--is_tonic"`.
pub open spec fn tonic_flag() -> Seq<u8> {
    seq![45u8, 45u8, 105u8, 115u8, 95u8, 116u8, 111u8, 110u8, 105u8, 99u8]
}

/// How one argument is classified: schema files carry no dash; `-I` names an
/// include directory; the service switch stands alone; any other dashed
/// argument is split at its first `=` or passed through whole.
pub open spec fn spec_classify(s: Seq<u8>) -> SpecArg {
    if s.len() == 0 || s[0] != DASH {
        SpecArg::ProtoFile(s)
    } else if s.len() >= 2 && s[1] == INCLUDE_LETTER {
        SpecArg::Include(s.skip(2))
    } else if s == tonic_flag() {
        SpecArg::TonicFlag
    } else if find_first(s, EQUALS) < 0 {
        SpecArg::Plain(s)
    } else {
        SpecArg::KeyValue(s.take(find_first(s, EQUALS)), s.skip(find_first(s, EQUALS) + 1))
    }
}

/// The byte-sequence shape of a classified argument.
pub open spec fn arg_view(r: ParsedArg) -> SpecArg {
    match r {
        ParsedArg::ProtoFile(v) => SpecArg::ProtoFile(v@),
        ParsedArg::Include(v) => SpecArg::Include(v@),
        ParsedArg::TonicFlag => SpecArg::TonicFlag,
        ParsedArg::Plain(v) => SpecArg::Plain(v@),
        ParsedArg::KeyValue(k, v) => SpecArg::KeyValue(k@, v@),
    }
}

/// Classifies one command-line argument.
pub fn classify_arg(arg: &Vec<u8>) -> (r: ParsedArg)
    ensures
        arg_view(r) == spec_classify(arg@),
{
    let n = arg.len();
    if n == 0 || arg[0] != DASH {
        return ParsedArg::ProtoFile(crate::bytes::copy_bytes(arg));
    }
    if n >= 2 && arg[1] == INCLUDE_LETTER {
        let rest = crate::bytes::subrange_vec(arg, 2, n);
        proof {
            assert(rest@ == arg@.skip(2));
        }
        return ParsedArg::Include(rest);
    }
    let mut tonic: Vec<u8> = Vec::new();
    tonic.push(45);
    tonic.push(45);
    tonic.push(105);
    tonic.push(115);
    tonic.push(95);
    tonic.push(116);
    tonic.push(111);
    tonic.push(110);
    tonic.push(105);
    tonic.push(99);
    proof {
        assert(tonic@ =~= tonic_flag());
    }
    if crate::bytes::eq_bytes(arg, &tonic) {
        return ParsedArg::TonicFlag;
    }
    match crate::bytes::find_byte(arg, EQUALS) {
        None => ParsedArg::Plain(crate::bytes::copy_bytes(arg)),
        Some(cut) => {
            proof {
                crate::bytes::lemma_find_first(arg@, EQUALS);
            }
            let key = crate::bytes::subrange_vec(arg, 0, cut);
            let value = crate::bytes::subrange_vec(arg, cut + 1, n);
            proof {
                assert(key@ == arg@.take(cut as int));
                assert(value@ == arg@.skip(cut + 1));
            }
            ParsedArg::KeyValue(key, value)
        },
    }
}

/// The bytes of `"--prost_opt=extern_path="`.
pub open spec fn extern_path_prefix() -> Seq<u8> {
    seq![
        45u8, 45u8, 112u8, 114u8, 111u8, 115u8, 116u8, 95u8, 111u8, 112u8, 116u8, 61u8, 101u8,
        120u8, 116u8, 101u8, 114u8, 110u8, 95u8, 112u8, 97u8, 116u8, 104u8, 61u8,
    ]
}

/// The compiler flag that hands one dependency's extern-path mapping on:
/// the fixed prefix, then the mapping line as given.
pub fn extern_path_flag(mapping: &Vec<u8>) -> (r: Vec<u8>)
    ensures
        r@ == extern_path_prefix() + mapping@,
{
    let mut r: Vec<u8> = Vec::new();
    r.push(45);
    r.push(45);
    r.push(112);
    r.push(114);
    r.push(111);
    r.push(115);
    r.push(116);
    r.push(95);
    r.push(111);
    r.push(112);
    r.push(116);
    r.push(61);
    r.push(101);
    r.push(120);
    r.push(116);
    r.push(101);
    r.push(114);
    r.push(110);
    r.push(95);
    r.push(112);
    r.push(97);
    r.push(116);
    r.push(104);
    r.push(61);
    proof {
        assert(r@ =~= extern_path_prefix());
    }
    crate::bytes::push_all(&mut r, mapping);
    r
}

} // verus!
