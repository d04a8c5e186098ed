//! Rendering of discovered entries into the bootloader configuration text.

use vstd::prelude::*;

use crate::entry::{entry_views, Entry, EntryV};
use crate::Cli;

verus! {

/// The decimal digit character of a value below ten.
pub open spec fn digit_char(d: nat) -> char {
    if d == 0 {
        '0'
    } else if d == 1 {
        '1'
    } else if d == 2 {
        '2'
    } else if d == 3 {
        '3'
    } else if d == 4 {
        '4'
    } else if d == 5 {
        '5'
    } else if d == 6 {
        '6'
    } else if d == 7 {
        '7'
    } else if d == 8 {
        '8'
    } else {
        '9'
    }
}

/// The decimal digits of `n`, most significant first, with no leading zero
/// except for `n == 0` itself.
pub open spec fn dec_digits(n: nat) -> Seq<char>
    decreases n,
{
    if n < 10 {
        seq![digit_char(n)]
    } else {
        dec_digits(n / 10).push(digit_char(n % 10))
    }
}

/// One digit as a string slice.
fn digit_str(d: u32) -> (r: &'static str)
    requires
        d < 10,
    ensures
        r@ == seq![digit_char(d as nat)],
{
    let r: &'static str = match d {
        0 => "0",
        1 => "1",
        2 => "2",
        3 => "3",
        4 => "4",
        5 => "5",
        6 => "6",
        7 => "7",
        8 => "8",
        _ => "9",
    };
    proof {
        reveal_strlit("0");
        reveal_strlit("1");
        reveal_strlit("2");
        reveal_strlit("3");
        reveal_strlit("4");
        reveal_strlit("5");
        reveal_strlit("6");
        reveal_strlit("7");
        reveal_strlit("8");
        reveal_strlit("9");
        assert(r@ =~= seq![digit_char(d as nat)]);
    }
    r
}

/// The decimal rendering of a 32-bit value.
fn u32_to_dec(n: u32) -> (r: String)
    ensures
        r@ == dec_digits(n as nat),
    decreases n,
{
    if n < 10 {
        digit_str(n).to_owned()
    } else {
        let mut s = u32_to_dec(n / 10);
        s.append(digit_str(n % 10));
        proof {
            assert(s@ =~= dec_digits(n as nat));
        }
        s
    }
}

/// The text block of one entry: its title line and the four indented
/// protocol, kernel, cmdline and module lines.
pub open spec fn spec_entry_block(e: EntryV, cmdline: Seq<char>) -> Seq<char> {
    seq!['/'] + e.title + "\n    protocol: linux\n    kernel_path: boot():"@ + e.kernel
        + "\n    kernel_cmdline: "@ + cmdline + "\n    module_path: boot():"@ + e.initrd + "\n"@
}

/// The concatenation of the blocks of a sequence of entries, in order.
pub open spec fn spec_entry_blocks(es: Seq<EntryV>, cmdline: Seq<char>) -> Seq<char>
    decreases es.len(),
{
    if es.len() == 0 {
        Seq::<char>::empty()
    } else {
        spec_entry_blocks(es.drop_last(), cmdline) + spec_entry_block(es.last(), cmdline)
    }
}

/// The whole configuration text: the timeout header, a blank line, then the
/// entry blocks with no separator between them.
pub open spec fn spec_limine(es: Seq<EntryV>, cmdline: Seq<char>, timeout: u32) -> Seq<char> {
    "timeout: "@ + dec_digits(timeout as nat) + "\n\n"@ + spec_entry_blocks(es, cmdline)
}

/// Render one entry as its configuration block.
pub fn format_entry(entry: Entry, config: &Cli) -> (r: String)
    ensures
        r@ == spec_entry_block(entry@, config.cmdline@),
{
    let mut s = "/".to_owned();
    s.append(entry.title.as_str());
    s.append("\n    protocol: linux\n    kernel_path: boot():");
    s.append(entry.kernel.as_str());
    s.append("\n    kernel_cmdline: ");
    s.append(config.cmdline.as_str());
    s.append("\n    module_path: boot():");
    s.append(entry.initrd.as_str());
    s.append("\n");
    proof {
        reveal_strlit("/");
        assert(s@ =~= spec_entry_block(entry@, config.cmdline@));
    }
    s
}

/// Render the full configuration for a list of entries: the timeout header,
/// a blank line, and each entry's block in the given order.
pub fn limine(entries: Vec<Entry>, config: &Cli) -> (r: String)
    ensures
        r@ == spec_limine(entry_views(entries@), config.cmdline@, config.timeout),
{
    let mut s = "timeout: ".to_owned();
    let t = u32_to_dec(config.timeout);
    s.append(t.as_str());
    s.append("\n\n");
    let ghost header = s@;
    let ghost orig = entries@;
    let mut rest = entries;
    while rest.len() > 0
        invariant
            rest@.len() <= orig.len(),
            rest@ == orig.subrange(orig.len() - rest@.len(), orig.len() as int),
            s@ == header + spec_entry_blocks(
                entry_views(orig).subrange(0, orig.len() - rest@.len()),
                config.cmdline@,
            ),
        decreases rest@.len(),
    {
        let ghost done = orig.len() - rest@.len();
        let ghost rest0 = rest@;
        let e = rest.remove(0);
        proof {
            assert(e == orig[done]);
            assert(rest@ =~= orig.subrange(done + 1, orig.len() as int));
        }
        let block = format_entry(e, config);
        s.append(block.as_str());
        proof {
            let pre = entry_views(orig).subrange(0, done);
            let cur = entry_views(orig).subrange(0, done + 1);
            assert(cur.drop_last() =~= pre);
            assert(cur.last() == orig[done]@);
        }
    }
    proof {
        assert(entry_views(orig).subrange(0, orig.len() as int) =~= entry_views(orig));
        assert(s@ =~= spec_limine(entry_views(orig), config.cmdline@, config.timeout));
    }
    s
}

} // verus!
