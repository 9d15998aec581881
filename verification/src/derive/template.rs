//! Text templates with numbered places.

use vstd::prelude::*;
use vstd::string::{StrSliceExecFns, StringExecFns};

verus! {

/// The number of the place that starts at `template[0]`, if one does: a dollar
/// sign and a digit.
pub open spec fn place(template: Seq<char>) -> Option<int> {
    if template.len() >= 2 && template[0] == '$' && '0' <= template[1] && template[1] <= '9' {
        Some(template[1] as int - '0' as int)
    } else {
        None
    }
}

/// A template with each place replaced by the argument of its number. A place
/// without an argument stays as it is.
pub open spec fn filled(template: Seq<char>, args: Seq<Seq<char>>) -> Seq<char>
    decreases template.len(),
{
    if template.len() == 0 {
        Seq::empty()
    } else {
        match place(template) {
            Some(number) if number < args.len() => args[number] + filled(template.skip(2), args),
            _ => seq![template[0]] + filled(template.skip(1), args),
        }
    }
}

/// The texts of `args`.
pub open spec fn texts(args: Seq<&String>) -> Seq<Seq<char>> {
    args.map_values(|arg: &String| arg@)
}

/// Fills a template.
pub fn fill(template: &str, args: &Vec<&String>) -> (text: String)
    ensures
        text@ == filled(template@, texts(args@)),
{
    let mut text = String::new();
    let len: usize = template.unicode_len();
    let mut i: usize = 0;
    proof {
        assert(template@.skip(0) =~= template@);
        assert(text@ =~= Seq::<char>::empty());
    }
    while i < len
        invariant
            len == template@.len(),
            i <= len,
            text@ + filled(template@.skip(i as int), texts(args@)) == filled(
                template@,
                texts(args@),
            ),
        decreases len - i,
    {
        let ghost rest = template@.skip(i as int);
        let ghost before = text@;
        let first: char = template.get_char(i);
        let mut number: usize = args.len();
        if first == '$' && i + 1 < len {
            let digit: char = template.get_char(i + 1);
            if '0' <= digit && digit <= '9' {
                number = (digit as u32 - '0' as u32) as usize;
            }
        }
        if number < args.len() {
            proof {
                assert(rest.skip(2) =~= template@.skip(i + 2));
                assert(place(rest) == Some(number as int));
            }
            text.append(args[number].as_str());
            i = i + 2;
            proof {
                assert(text@ + filled(rest.skip(2), texts(args@)) =~= before + (texts(
                    args@,
                )[number as int] + filled(rest.skip(2), texts(args@))));
            }
        } else {
            proof {
                assert(rest.skip(1) =~= template@.skip(i + 1));
            }
            text.append(template.substring_char(i, i + 1));
            i = i + 1;
            proof {
                assert(template@.subrange(i - 1, i as int) =~= seq![rest[0]]);
                assert(text@ + filled(rest.skip(1), texts(args@)) =~= before + (seq![rest[0]]
                    + filled(rest.skip(1), texts(args@))));
            }
        }
    }
    proof {
        assert(template@.skip(len as int) =~= Seq::<char>::empty());
        assert(text@ + Seq::<char>::empty() =~= text@);
    }
    text
}

} // verus!
