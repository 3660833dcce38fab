//! The lines that describe an executable and its modules.

use vstd::prelude::*;

use crate::extractor::{BinaryView, BunBinary};
use crate::format::{Module, ModuleView};
use crate::paths;
use crate::text;
use crate::text::{push_digits, push_text};

verus! {

/// `text` with copies of `fill` in front, up to the given width.
pub open spec fn padded(text: Seq<char>, width: int, fill: char) -> Seq<char> {
    if text.len() >= width {
        text
    } else {
        Seq::new((width - text.len()) as nat, |i: int| fill) + text
    }
}

/// Puts the digits of `number` behind `out`, padded to the given width.
fn push_padded(out: &mut String, number: usize, base: usize, width: usize, fill: char)
    requires
        2 <= base <= 16,
    ensures
        final(out)@ == old(out)@ + padded(text::digits(number as nat, base as nat), width as int, fill),
{
    let ghost before = out@;
    let mut digits = String::new();
    push_digits(&mut digits, number, base);
    assert(digits@ =~= text::digits(number as nat, base as nat));
    let length: usize = text::chars_of(digits.as_str()).len();
    let mut filled: usize = length;
    while filled < width
        invariant
            length <= filled,
            filled <= width || filled == length,
            out@ == before + Seq::new((filled - length) as nat, |i: int| fill),
        decreases width - filled,
    {
        out.push(fill);
        filled = filled + 1;
        assert(Seq::new((filled - length) as nat, |i: int| fill) =~= Seq::new(
            (filled - 1 - length) as nat,
            |i: int| fill,
        ).push(fill));
    }
    push_text(out, digits.as_str());
    assert(out@ =~= before + padded(digits@, width as int, fill));
}

/// A heading and a number.
pub open spec fn number_line(heading: Seq<char>, number: nat, base: nat, unit: Seq<char>) -> Seq<char> {
    heading + text::digits(number, base) + unit
}

/// A heading and a yes or no.
pub open spec fn switch_line(heading: Seq<char>, on: bool) -> Seq<char> {
    heading + if on {
        "true"@
    } else {
        "false"@
    }
}

/// The lines on the flags of an executable; there are none if no flag is set.
pub open spec fn flag_lines(flags: u32) -> Seq<Seq<char>> {
    let switches = crate::format::flags_of(flags);
    if flags == 0 {
        Seq::empty()
    } else {
        seq![
            "Flags: 0x"@ + padded(text::digits(flags as nat, 16), 8, '0'),
            switch_line("  disable_env_files: "@, switches.disable_default_env_files),
            switch_line("  disable_bunfig: "@, switches.disable_autoload_bunfig),
            switch_line("  disable_tsconfig: "@, switches.disable_autoload_tsconfig),
            switch_line("  disable_package_json: "@, switches.disable_autoload_package_json),
        ]
    }
}

/// The lines that describe an executable.
pub open spec fn summary_of(binary: BinaryView) -> Seq<Seq<char>> {
    seq![
        "Detected version: "@ + binary.version.text(),
        "Embed method: "@ + binary.embed_method.text(),
        number_line("Payload base: 0x"@, binary.payload_base as nat, 16, ""@),
        number_line("Module struct size: "@, binary.module_struct_size as nat, 10, " bytes"@),
        number_line("Module count: "@, binary.modules.len(), 10, ""@),
        number_line("Entry point: "@, binary.offsets.entry_point_id as nat, 10, ""@),
    ] + flag_lines(binary.offsets.flags) + match binary.argv {
        Some(argv) => seq!["Argv: "@ + argv],
        None => Seq::empty(),
    }
}

/// A heading and a text.
fn text_to_line(heading: &str, text: &str) -> (line: String)
    ensures
        line@ == heading@ + text@,
{
    let mut line = heading.to_owned();
    push_text(&mut line, text);
    line
}

/// A heading and a number.
fn number_to_line(heading: &str, number: usize, base: usize, unit: &str) -> (line: String)
    requires
        2 <= base <= 16,
    ensures
        line@ == number_line(heading@, number as nat, base as nat, unit@),
{
    let mut line = heading.to_owned();
    push_digits(&mut line, number, base);
    push_text(&mut line, unit);
    line
}

/// A heading and a yes or no.
fn switch_to_line(heading: &str, on: bool) -> (line: String)
    ensures
        line@ == switch_line(heading@, on),
{
    if on {
        text_to_line(heading, "true")
    } else {
        text_to_line(heading, "false")
    }
}

/// Puts a line behind `lines`.
fn push_line(lines: &mut Vec<String>, line: String)
    ensures
        paths::texts(final(lines)@) == paths::texts(old(lines)@).push(line@),
{
    lines.push(line);
    assert(paths::texts(lines@) =~= paths::texts(old(lines)@).push(line@));
}

/// Describes an executable, line by line.
pub fn summary_lines(binary: &BunBinary) -> (lines: Vec<String>)
    ensures
        paths::texts(lines@) == summary_of(binary@),
{
    let mut lines: Vec<String> = Vec::new();
    assert(paths::texts(lines@) =~= Seq::empty());
    push_line(&mut lines, text_to_line("Detected version: ", binary.version.as_str()));
    let method = binary.embed_method.to_string();
    push_line(&mut lines, text_to_line("Embed method: ", method.as_str()));
    push_line(&mut lines, number_to_line("Payload base: 0x", binary.payload_base, 16, ""));
    push_line(
        &mut lines,
        number_to_line("Module struct size: ", binary.module_struct_size, 10, " bytes"),
    );
    push_line(&mut lines, number_to_line("Module count: ", binary.modules.len(), 10, ""));
    push_line(
        &mut lines,
        number_to_line("Entry point: ", binary.offsets.entry_point_id as usize, 10, ""),
    );
    let ghost head = paths::texts(lines@);
    if binary.offsets.flags != 0 {
        let flags = binary.offsets.decoded_flags();
        let mut line = "Flags: 0x".to_owned();
        push_padded(&mut line, binary.offsets.flags as usize, 16, 8, '0');
        push_line(&mut lines, line);
        push_line(
            &mut lines,
            switch_to_line("  disable_env_files: ", flags.disable_default_env_files),
        );
        push_line(&mut lines, switch_to_line("  disable_bunfig: ", flags.disable_autoload_bunfig));
        push_line(
            &mut lines,
            switch_to_line("  disable_tsconfig: ", flags.disable_autoload_tsconfig),
        );
        push_line(
            &mut lines,
            switch_to_line("  disable_package_json: ", flags.disable_autoload_package_json),
        );
    }
    assert(paths::texts(lines@) =~= head + flag_lines(binary.offsets.flags));
    if let Some(argv) = &binary.argv {
        push_line(&mut lines, text_to_line("Argv: ", argv.as_str()));
    }
    assert(paths::texts(lines@) =~= summary_of(binary@));
    lines
}

/// A note on the size of a blob; empty if there is none.
pub open spec fn size_note(lead: Seq<char>, blob: Option<Seq<u8>>) -> Seq<char> {
    match blob {
        Some(bytes) => number_line(lead, bytes.len(), 10, " bytes)"@),
        None => ""@,
    }
}

/// A note on the size of the bytecode in megabytes; empty if there is none.
pub open spec fn bytecode_note(blob: Option<Seq<u8>>, megabytes: Seq<char>) -> Seq<char> {
    match blob {
        Some(_) => " (bytecode: "@ + megabytes + " MB)"@,
        None => ""@,
    }
}

/// The line that describes a module, given the size of its bytecode in megabytes.
pub open spec fn line_of(module: ModuleView, megabytes: Seq<char>) -> Seq<char> {
    "  ["@ + padded(text::digits(module.index as nat, 10), 2, ' ') + "] "@ + module.name + " ("@
        + crate::format::kind_of(module.loader, module.name) + ", "@ + text::digits(
        module.contents.len(),
        10,
    ) + " bytes, "@ + module.loader.text() + ", "@ + module.encoding.text() + ", "@
        + module.module_format.text() + ")"@ + (if module.is_entry_point {
        " [ENTRY]"@
    } else {
        ""@
    }) + size_note(" (sourcemap: "@, module.sourcemap) + bytecode_note(module.bytecode, megabytes)
        + size_note(" (module_info: "@, module.module_info)
}

/// Notes the size of a blob.
fn note_size(lead: &str, blob: &Option<Vec<u8>>) -> (note: String)
    ensures
        note@ == size_note(lead@, crate::format::optional_bytes(*blob)),
{
    match blob {
        Some(bytes) => number_to_line(lead, bytes.len(), 10, " bytes)"),
        None => "".to_owned(),
    }
}

/// Describes a module, given the size of its bytecode in megabytes.
pub fn module_line(module: &Module, megabytes: &str) -> (line: String)
    ensures
        line@ == line_of(module@, megabytes@),
{
    let sourcemap = note_size(" (sourcemap: ", &module.sourcemap);
    let module_info = note_size(" (module_info: ", &module.module_info);
    let bytecode = match &module.bytecode {
        Some(_) => {
            let mut note = text_to_line(" (bytecode: ", megabytes);
            push_text(&mut note, " MB)");
            note
        },
        None => "".to_owned(),
    };
    let mut line = "  [".to_owned();
    push_padded(&mut line, module.index, 10, 2, ' ');
    push_text(&mut line, "] ");
    push_text(&mut line, module.name.as_str());
    push_text(&mut line, " (");
    push_text(&mut line, module.file_type());
    push_text(&mut line, ", ");
    push_digits(&mut line, module.contents.len(), 10);
    push_text(&mut line, " bytes, ");
    push_text(&mut line, module.loader.as_str());
    push_text(&mut line, ", ");
    push_text(&mut line, module.encoding.as_str());
    push_text(&mut line, ", ");
    push_text(&mut line, module.module_format.as_str());
    push_text(&mut line, ")");
    push_text(
        &mut line,
        if module.is_entry_point {
            " [ENTRY]"
        } else {
            ""
        },
    );
    push_text(&mut line, sourcemap.as_str());
    push_text(&mut line, bytecode.as_str());
    push_text(&mut line, module_info.as_str());
    line
}

/// Whether `line` is `heading` and, behind it, `on` in words.
pub open spec fn tells(line: Seq<char>, heading: Seq<char>, on: bool) -> bool {
    &&& on ==> line == heading + "true"@
    &&& !on ==> line == heading + "false"@
}

/// What the description of an executable tells: each line has its own heading and tells one trait,
/// numbers so that they are read back. The flags and their four switches are told only if a flag is
/// set, and the arguments come last, if there are any.
pub proof fn summary_tells(binary: BinaryView)
    requires
        binary.payload_base >= 0,
        binary.module_struct_size >= 0,
    ensures
        ({
            let lines = summary_of(binary);
            let flags = binary.offsets.flags;
            let flag_count: int = if flags == 0 {
                0
            } else {
                5
            };
            &&& lines.len() == 6 + flag_count + (if binary.argv is Some {
                1int
            } else {
                0
            })
            &&& lines[0] == "Detected version: "@ + binary.version.text()
            &&& lines[1] == "Embed method: "@ + binary.embed_method.text()
            &&& exists|number: Seq<char>| #[trigger]
                text::spells(number, binary.payload_base, 16) && lines[2] == "Payload base: 0x"@
                    + number
            &&& exists|number: Seq<char>| #[trigger]
                text::spells(number, binary.module_struct_size, 10) && lines[3]
                    == "Module struct size: "@ + number + " bytes"@
            &&& exists|number: Seq<char>| #[trigger]
                text::spells(number, binary.modules.len() as int, 10) && lines[4]
                    == "Module count: "@ + number
            &&& exists|number: Seq<char>| #[trigger]
                text::spells(number, binary.offsets.entry_point_id as int, 10) && lines[5]
                    == "Entry point: "@ + number
            &&& flags != 0 ==> {
                &&& exists|number: Seq<char>| #[trigger]
                    text::value_in(number, 16) == flags && number.len() == 8 && lines[6]
                        == "Flags: 0x"@ + number
                &&& tells(lines[7], "  disable_env_files: "@, flags & 1 != 0)
                &&& tells(lines[8], "  disable_bunfig: "@, flags & 2 != 0)
                &&& tells(lines[9], "  disable_tsconfig: "@, flags & 4 != 0)
                &&& tells(lines[10], "  disable_package_json: "@, flags & 8 != 0)
            }
            &&& binary.argv matches Some(argv) ==> lines[6 + flag_count] == "Argv: "@ + argv
        }),
{
    reveal_strlit("");
    let lines = summary_of(binary);
    let flags = binary.offsets.flags;
    crate::format::switches_are_bits(flags);
    text::digits_spell(binary.payload_base as nat, 16);
    text::digits_spell(binary.module_struct_size as nat, 10);
    text::digits_spell(binary.modules.len(), 10);
    text::digits_spell(binary.offsets.entry_point_id as nat, 10);
    text::digits_spell(flags as nat, 16);
    let base = text::digits(binary.payload_base as nat, 16);
    let count = text::digits(binary.modules.len(), 10);
    let entry = text::digits(binary.offsets.entry_point_id as nat, 10);
    assert("Payload base: 0x"@ + base + ""@ =~= "Payload base: 0x"@ + base);
    assert("Module count: "@ + count + ""@ =~= "Module count: "@ + count);
    assert("Entry point: "@ + entry + ""@ =~= "Entry point: "@ + entry);
    assert(text::spells(base, binary.payload_base, 16));
    assert(text::spells(count, binary.modules.len() as int, 10));
    assert(text::spells(entry, binary.offsets.entry_point_id as int, 10));
    assert(text::spells(
        text::digits(binary.module_struct_size as nat, 10),
        binary.module_struct_size,
        10,
    ));
    let hex = padded(text::digits(flags as nat, 16), 8, '0');
    lemma_padded_value(text::digits(flags as nat, 16), 8, 16);
    reveal_with_fuel(hex_bound, 9);
    lemma_hex_length(flags as nat, 8);
    assert(text::value_in(hex, 16) == flags);
}

/// The numbers below this one have at most so many hexadecimal digits.
spec fn hex_bound(count: nat) -> nat
    decreases count,
{
    if count == 0 {
        1
    } else {
        16 * hex_bound((count - 1) as nat)
    }
}

proof fn lemma_hex_length(number: nat, count: nat)
    requires
        count >= 1,
        number < hex_bound(count),
    ensures
        text::digits(number, 16).len() <= count,
    decreases count,
{
    if number >= 16 {
        if count == 1 {
            reveal_with_fuel(hex_bound, 2);
        } else {
            lemma_hex_length(number / 16, (count - 1) as nat);
        }
    }
}

/// Zeros in front of a number do not change it.
proof fn lemma_padded_value(number: Seq<char>, width: int, base: int)
    ensures
        text::value_in(padded(number, width, '0'), base) == text::value_in(number, base),
        padded(number, width, '0').len() >= width,
{
    if number.len() < width {
        let zeros = Seq::new((width - number.len()) as nat, |i: int| '0');
        lemma_zeros(zeros, base);
        lemma_value_behind(zeros, number, base);
    }
}

proof fn lemma_zeros(zeros: Seq<char>, base: int)
    requires
        forall|i: int| 0 <= i < zeros.len() ==> zeros[i] == '0',
    ensures
        text::value_in(zeros, base) == 0,
    decreases zeros.len(),
{
    if zeros.len() > 0 {
        lemma_zeros(zeros.drop_last(), base);
        assert(base * 0 == 0) by (nonlinear_arith);
    }
}

proof fn lemma_value_behind(front: Seq<char>, number: Seq<char>, base: int)
    requires
        text::value_in(front, base) == 0,
    ensures
        text::value_in(front + number, base) == text::value_in(number, base),
    decreases number.len(),
{
    if number.len() == 0 {
        assert(front + number =~= front);
    } else {
        lemma_value_behind(front, number.drop_last(), base);
        assert((front + number).drop_last() =~= front + number.drop_last());
    }
}

/// What the line on a module tells: its index, its name, what kind of file it is, how many bytes it
/// has, its loader, encoding and format, whether it is the entry point, and what comes with it.
pub proof fn module_line_tells(module: ModuleView, megabytes: Seq<char>)
    requires
        module.index >= 0,
    ensures
        exists|index: Seq<char>, size: Seq<char>, notes: Seq<char>|
            {
                &&& #[trigger] text::spells(index, module.index, 10)
                &&& #[trigger] text::spells(size, module.contents.len() as int, 10)
                &&& #[trigger] notes_tell(notes, module, megabytes)
                &&& line_of(module, megabytes) == "  ["@ + (if index.len() < 2 {
                    seq![' '] + index
                } else {
                    index
                }) + "] "@ + module.name + " ("@ + crate::format::kind_of(
                    module.loader,
                    module.name,
                ) + ", "@ + size + " bytes, "@ + module.loader.text() + ", "@
                    + module.encoding.text() + ", "@ + module.module_format.text() + ")"@ + notes
            },
{
    reveal_strlit("");
    let index = text::digits(module.index as nat, 10);
    let size = text::digits(module.contents.len(), 10);
    text::digits_spell(module.index as nat, 10);
    text::digits_spell(module.contents.len(), 10);
    assert(text::spells(index, module.index, 10));
    assert(text::spells(size, module.contents.len() as int, 10));
    let shown = padded(index, 2, ' ');
    assert(shown =~= if index.len() < 2 {
        seq![' '] + index
    } else {
        index
    });
    let entry = if module.is_entry_point {
        " [ENTRY]"@
    } else {
        ""@
    };
    let map = size_note(" (sourcemap: "@, module.sourcemap);
    let code = bytecode_note(module.bytecode, megabytes);
    let info = size_note(" (module_info: "@, module.module_info);
    lemma_size_note(" (sourcemap: "@, module.sourcemap);
    lemma_size_note(" (module_info: "@, module.module_info);
    let notes = entry + map + code + info;
    assert(notes_tell(notes, module, megabytes)) by {
        assert(is_size_note(map, " (sourcemap: "@, module.sourcemap));
        assert(is_size_note(info, " (module_info: "@, module.module_info));
        assert(""@ =~= Seq::<char>::empty());
    }
    let front = "  ["@ + shown + "] "@ + module.name + " ("@ + crate::format::kind_of(
        module.loader,
        module.name,
    ) + ", "@ + size + " bytes, "@ + module.loader.text() + ", "@ + module.encoding.text() + ", "@
        + module.module_format.text() + ")"@;
    assert(line_of(module, megabytes) == front + entry + map + code + info);
    assert(front + entry + map + code + info =~= front + notes);
}

/// Whether `note` tells the size of a blob behind `lead`, or is empty where there is no blob.
pub open spec fn is_size_note(note: Seq<char>, lead: Seq<char>, blob: Option<Seq<u8>>) -> bool {
    match blob {
        Some(bytes) => exists|size: Seq<char>| #[trigger]
            text::spells(size, bytes.len() as int, 10) && note == lead + size + " bytes)"@,
        None => note.len() == 0,
    }
}

/// Whether `notes` tell of the entry point, the sourcemap, the bytecode and the module info, in this
/// order, each exactly if the module has it.
pub open spec fn notes_tell(notes: Seq<char>, module: ModuleView, megabytes: Seq<char>) -> bool {
    exists|map: Seq<char>, info: Seq<char>|
        {
            &&& #[trigger] is_size_note(map, " (sourcemap: "@, module.sourcemap)
            &&& #[trigger] is_size_note(info, " (module_info: "@, module.module_info)
            &&& notes == (if module.is_entry_point {
                " [ENTRY]"@
            } else {
                Seq::empty()
            }) + map + (if module.bytecode is Some {
                " (bytecode: "@ + megabytes + " MB)"@
            } else {
                Seq::empty()
            }) + info
        }
}

proof fn lemma_size_note(lead: Seq<char>, blob: Option<Seq<u8>>)
    ensures
        is_size_note(size_note(lead, blob), lead, blob),
{
    reveal_strlit("");
    if let Some(bytes) = blob {
        text::digits_spell(bytes.len(), 10);
        assert(text::spells(text::digits(bytes.len(), 10), bytes.len() as int, 10));
    }
}

} // verus!
