//! What `pef info` says of a file.
use vstd::prelude::*;

use crate::bytes::{be32, lemma_words_written, number};
use crate::cmd::info::{
    architecture_text, container_info, entry_text, header_text, hex8, hex_min, info_of, labelled,
    last_loader, libraries_text, library_text, loader_info_text, loader_report, section_table_text,
    section_text, signed_decimal, table_heading, tag_text,
};
use crate::text::{decimal, left, right, upper_hex, upper_hex_min};
use crate::text_laws::{
    is_upper, lemma_decimal, lemma_eight_digits, lemma_padded, lemma_upper_hex,
    lemma_upper_hex_min, numeral, sixteen_to,
};
use crate::util::pef::{
    ContainerView, PefFileHeader, PefLoaderInfoHeader, PefSectionHeader, container, kind_name,
    section_kind,
};
use crate::util::pef_loader::{LibraryView, loader_section};
use crate::util::rsp_laws::says_decimal;

verus! {

/// A tag is printed as the four characters whose codes are its bytes, where all of them
/// can be printed, and else as eight hexadecimal digits that say its value.
pub proof fn lemma_tag_text(v: u32)
    ensures
        ({
            let t = tag_text(v);
            let b = be32(v);
            let plain = forall|i: int| 0 <= i < 4 ==> 0x20 <= #[trigger] b[i] <= 0x7E;
            &&& number(b, 0, 4) == v
            &&& plain ==> t.len() == 4 && forall|i: int|
                0 <= i < 4 ==> #[trigger] t[i] as int == b[i]
            &&& !plain ==> t.len() == 8 && numeral(t, 16) == v && forall|i: int|
                0 <= i < 8 ==> is_upper(#[trigger] t[i])
        }),
{
    lemma_words_written(v, 0, 0);
    lemma_eight_digits(v);
    let b = be32(v);
    if forall|i: int| 0 <= i < 4 ==> 0x20 <= #[trigger] b[i] <= 0x7E {
        assert(b[0] <= 0x7E && b[1] <= 0x7E && b[2] <= 0x7E && b[3] <= 0x7E);
    }
}

/// Whether a text is `0x` and upper-case digits that say the number.
pub open spec fn says_upper(t: Seq<char>, n: int) -> bool {
    &&& t.len() > 2
    &&& t[0] == '0' && t[1] == 'x'
    &&& numeral(t.skip(2), 16) == n
    &&& forall|i: int| 2 <= i < t.len() ==> is_upper(#[trigger] t[i])
}

/// Whether a text is `0x` and eight digits that say the number.
pub open spec fn says_eight(t: Seq<char>, n: int) -> bool {
    says_upper(t, n) && t.len() == 10
}

proof fn lemma_hex_texts(n: u32)
    ensures
        says_eight(hex8(n), n as int),
        says_upper(hex_min(n), n as int),
        hex_min(n)[2] == '0' ==> n == 0,
{
    reveal_strlit("0x");
    lemma_eight_digits(n);
    lemma_upper_hex_min(n as nat);
    assert(hex8(n).skip(2) =~= upper_hex(n as nat, 8));
    assert(hex_min(n).skip(2) =~= upper_hex_min(n as nat));
    assert forall|i: int| 2 <= i < 10 implies is_upper(#[trigger] hex8(n)[i]) by {
        assert(hex8(n)[i] == upper_hex(n as nat, 8)[i - 2]);
    }
    assert forall|i: int| 2 <= i < hex_min(n).len() implies is_upper(#[trigger] hex_min(n)[i]) by {
        assert(hex_min(n)[i] == upper_hex_min(n as nat)[i - 2]);
    }
}

proof fn lemma_decimal_text(n: nat)
    ensures
        says_decimal(decimal(n), n as int),
{
    lemma_decimal(n);
}

/// The lines of labels and values.
pub open spec fn label_lines(labels: Seq<Seq<char>>, values: Seq<Seq<char>>) -> Seq<char>
    decreases labels.len(),
{
    if labels.len() == 0 {
        Seq::empty()
    } else {
        label_lines(labels.drop_last(), values) + labels.last() + values[labels.len() - 1]
            + seq!['\n']
    }
}

/// The labels of the lines on the file header.
pub open spec fn header_labels() -> Seq<Seq<char>> {
    seq![
        "  magic:           "@,
        "  architecture:    "@,
        "  format version:  "@,
        "  date/time stamp: "@,
        "  old def version: "@,
        "  old imp version: "@,
        "  current version: "@,
        "  section count:   "@,
        "  instantiated:    "@,
    ]
}

proof fn lemma_label_lines(labels: Seq<Seq<char>>, values: Seq<Seq<char>>, n: nat)
    requires
        n < labels.len(),
    ensures
        label_lines(labels.take(n as int + 1), values) == label_lines(
            labels.take(n as int),
            values,
        ) + labelled(labels[n as int], values[n as int]),
        label_lines(labels.take(0), values) == Seq::<char>::empty(),
{
    let up = labels.take(n as int + 1);
    assert(up.drop_last() =~= labels.take(n as int));
    assert(up.last() == labels[n as int]);
    assert(label_lines(up, values) =~= label_lines(labels.take(n as int), values) + labelled(
        labels[n as int],
        values[n as int],
    ));
}

/// The file header is printed on nine lines, each a label and a value that says the
/// field.
pub proof fn lemma_header_text(h: PefFileHeader) -> (v: Seq<Seq<char>>)
    ensures
        v.len() == 9,
        header_text(h) == label_lines(header_labels(), v),
        v[0] == tag_text(h.tag1) + tag_text(h.tag2),
        exists|t: Seq<char>|
            t.len() == 8 && #[trigger] numeral(t, 16) == h.architecture && v[1]
                == architecture_text(h.architecture) + " ("@ + t + ")"@,
        says_decimal(v[2], h.format_version as int),
        says_eight(v[3], h.date_time_stamp as int),
        says_eight(v[4], h.old_def_version as int),
        says_eight(v[5], h.old_imp_version as int),
        says_eight(v[6], h.current_version as int),
        says_decimal(v[7], h.section_count as int),
        says_decimal(v[8], h.inst_section_count as int),
{
    let v = seq![
        tag_text(h.tag1) + tag_text(h.tag2),
        architecture_text(h.architecture) + " ("@ + upper_hex(h.architecture as nat, 8) + ")"@,
        decimal(h.format_version as nat),
        hex8(h.date_time_stamp),
        hex8(h.old_def_version),
        hex8(h.old_imp_version),
        hex8(h.current_version),
        decimal(h.section_count as nat),
        decimal(h.inst_section_count as nat),
    ];
    lemma_eight_digits(h.architecture);
    lemma_decimal_text(h.format_version as nat);
    lemma_hex_texts(h.date_time_stamp);
    lemma_hex_texts(h.old_def_version);
    lemma_hex_texts(h.old_imp_version);
    lemma_hex_texts(h.current_version);
    lemma_decimal_text(h.section_count as nat);
    lemma_decimal_text(h.inst_section_count as nat);
    let l = header_labels();
    lemma_label_lines(l, v, 0);
    lemma_label_lines(l, v, 1);
    lemma_label_lines(l, v, 2);
    lemma_label_lines(l, v, 3);
    lemma_label_lines(l, v, 4);
    lemma_label_lines(l, v, 5);
    lemma_label_lines(l, v, 6);
    lemma_label_lines(l, v, 7);
    lemma_label_lines(l, v, 8);
    assert(l.take(9) =~= l);
    assert(Seq::<char>::empty() + labelled(l[0], v[0]) =~= labelled(l[0], v[0]));
    v
}

/// Whether `f` is `s`, padded with spaces in front to at least `w` characters.
pub open spec fn is_right(f: Seq<char>, w: int, s: Seq<char>) -> bool {
    &&& f.len() == (if s.len() < w { w } else { s.len() as int })
    &&& s.is_suffix_of(f)
    &&& forall|i: int| 0 <= i < f.len() - s.len() ==> #[trigger] f[i] == ' '
}

/// Whether `f` is `s`, padded with spaces behind it to at least `w` characters.
pub open spec fn is_left(f: Seq<char>, w: int, s: Seq<char>) -> bool {
    &&& f.len() == (if s.len() < w { w } else { s.len() as int })
    &&& s.is_prefix_of(f)
    &&& forall|i: int| s.len() <= i < f.len() ==> #[trigger] f[i] == ' '
}

/// Whether `f` says the number in hexadecimal, padded in front.
pub open spec fn is_hex_column(f: Seq<char>, w: int, n: int) -> bool {
    exists|s: Seq<char>| #[trigger] says_upper(s, n) && is_right(f, w, s)
}

/// Whether `f` says the number in decimal, padded in front.
pub open spec fn is_decimal_column(f: Seq<char>, w: int, n: int) -> bool {
    exists|s: Seq<char>| #[trigger] says_decimal(s, n) && is_right(f, w, s)
}

/// The fields with a space before each, and a line break at the end.
pub open spec fn spaced(f: Seq<Seq<char>>, n: nat) -> Seq<char>
    decreases n,
{
    if n == 0 {
        Seq::empty()
    } else {
        spaced(f, (n - 1) as nat) + " "@ + f[n - 1]
    }
}

/// The line on a section gives its number, its name or that it has none, its kind, its
/// address, its three sizes, its place in the file and its alignment.
pub proof fn lemma_section_line(i: nat, name: Option<Seq<char>>, sh: PefSectionHeader) -> (f: Seq<
    Seq<char>,
>)
    ensures
        f.len() == 9,
        section_text(i, name, sh) == "  "@ + f[0] + "  "@ + f[1] + spaced(f.skip(2), 7)
            + seq!['\n'],
        is_decimal_column(f[0], 3, i as int),
        name is Some ==> is_left(f[1], 16, name->Some_0),
        name is None ==> is_left(f[1], 16, "<unnamed>"@),
        sh.section_kind <= 8 ==> is_left(
            f[2],
            8,
            kind_name(section_kind(sh.section_kind)->Some_0),
        ),
        sh.section_kind > 8 ==> is_left(f[2], 8, "?"@),
        is_hex_column(f[3], 10, sh.default_address as int),
        is_hex_column(f[4], 10, sh.total_size as int),
        is_hex_column(f[5], 10, sh.unpacked_size as int),
        is_hex_column(f[6], 10, sh.container_size as int),
        is_hex_column(f[7], 5, sh.container_offset as int),
        is_decimal_column(f[8], 5, sh.alignment as int),
{
    let title = match name {
        Some(n) => n,
        None => "<unnamed>"@,
    };
    let kind = match section_kind(sh.section_kind) {
        Some(k) => kind_name(k),
        None => "?"@,
    };
    let f = seq![
        right(decimal(i), 3),
        left(title, 16),
        left(kind, 8),
        right(hex_min(sh.default_address), 10),
        right(hex_min(sh.total_size), 10),
        right(hex_min(sh.unpacked_size), 10),
        right(hex_min(sh.container_size), 10),
        right(hex_min(sh.container_offset), 5),
        right(decimal(sh.alignment as nat), 5),
    ];
    lemma_decimal_text(i);
    lemma_decimal_text(sh.alignment as nat);
    lemma_padded(decimal(i), 3);
    lemma_padded(title, 16);
    lemma_padded(kind, 8);
    lemma_column(sh.default_address, 10);
    lemma_column(sh.total_size, 10);
    lemma_column(sh.unpacked_size, 10);
    lemma_column(sh.container_size, 10);
    lemma_column(sh.container_offset, 5);
    lemma_padded(decimal(sh.alignment as nat), 5);
    assert(is_right(f[0], 3, decimal(i)));
    assert(is_right(f[8], 5, decimal(sh.alignment as nat)));
    lemma_fields_joined(f);
    f
}

/// The fields of a section's line, put together in another way.
proof fn lemma_fields_joined(f: Seq<Seq<char>>)
    requires
        f.len() == 9,
    ensures
        ({
            let label = "  "@ + f[0] + "  "@ + f[1] + " "@ + f[2];
            label + (" "@ + f[3]) + (" "@ + f[4]) + (" "@ + f[5]) + (" "@ + f[6]) + (" "@ + f[7])
                + " "@ + f[8] + seq!['\n'] == "  "@ + f[0] + "  "@ + f[1] + spaced(f.skip(2), 7)
                + seq!['\n']
        }),
{
    let g = f.skip(2);
    let head = "  "@ + f[0] + "  "@ + f[1];
    lemma_spaced(head, g, 0);
    lemma_spaced(head, g, 1);
    lemma_spaced(head, g, 2);
    lemma_spaced(head, g, 3);
    lemma_spaced(head, g, 4);
    lemma_spaced(head, g, 5);
    lemma_spaced(head, g, 6);
    assert(head + spaced(g, 0) =~= head);
    lemma_grouped(head + spaced(g, 1), " "@, f[3]);
    lemma_grouped(head + spaced(g, 2), " "@, f[4]);
    lemma_grouped(head + spaced(g, 3), " "@, f[5]);
    lemma_grouped(head + spaced(g, 4), " "@, f[6]);
    lemma_grouped(head + spaced(g, 5), " "@, f[7]);
}

proof fn lemma_grouped(a: Seq<char>, b: Seq<char>, c: Seq<char>)
    ensures
        a + (b + c) == a + b + c,
{
    assert(a + (b + c) =~= a + b + c);
}

proof fn lemma_spaced(head: Seq<char>, f: Seq<Seq<char>>, n: nat)
    ensures
        head + spaced(f, n + 1) == head + spaced(f, n) + " "@ + f[n as int],
{
    assert(head + spaced(f, n + 1) =~= head + spaced(f, n) + " "@ + f[n as int]);
}

proof fn lemma_column(n: u32, w: nat)
    ensures
        is_hex_column(right(hex_min(n), w), w as int, n as int),
{
    lemma_hex_texts(n);
    lemma_padded(hex_min(n), w);
    assert(is_right(right(hex_min(n), w), w as int, hex_min(n)));
}

/// What is appended stands at the end, and what was there stays.
proof fn lemma_appended(a: Seq<char>, b: Seq<char>, at: int, len: int)
    requires
        0 <= at,
        0 <= len,
        at + len <= a.len(),
    ensures
        (a + b).len() == a.len() + b.len(),
        (a + b).subrange(a.len() as int, (a.len() + b.len()) as int) == b,
        (a + b).subrange(0, a.len() as int) == a,
        (a + b).subrange(at, at + len) == a.subrange(at, at + len),
        (a + b).subrange(0, at) == a.subrange(0, at),
{
    assert((a + b).subrange(a.len() as int, (a.len() + b.len()) as int) =~= b);
    assert((a + b).subrange(0, a.len() as int) =~= a);
    assert((a + b).subrange(at, at + len) =~= a.subrange(at, at + len));
    assert((a + b).subrange(0, at) =~= a.subrange(0, at));
}

/// The lines on the sections come one behind the other, in the order of the sections.
pub proof fn lemma_section_lines(c: ContainerView, n: nat, i: int) -> (at: int)
    requires
        0 <= i < n,
        c.section_names.len() == c.sections.len(),
        n <= c.sections.len(),
    ensures
        ({
            let line = section_text(i as nat, c.section_names[i], c.sections[i]);
            let all = section_table_text(c, n);
            &&& 0 <= at && at + line.len() <= all.len()
            &&& all.subrange(at, at + line.len()) == line
            &&& all.subrange(0, at) == section_table_text(c, i as nat)
            &&& i == n - 1 ==> at + line.len() == all.len()
        }),
    decreases n,
{
    let below = section_table_text(c, (n - 1) as nat);
    let last = section_text((n - 1) as nat, c.section_names[n - 1], c.sections[n - 1]);
    assert(section_table_text(c, n) == below + last);
    if i == n - 1 {
        lemma_appended(below, last, 0, 0);
        below.len() as int
    } else {
        let at = lemma_section_lines(c, (n - 1) as nat, i);
        let line = section_text(i as nat, c.section_names[i], c.sections[i]);
        lemma_appended(below, last, at, line.len() as int);
        at
    }
}

/// The loader section is the last one of its kind; its range is that of its header.
pub proof fn lemma_loader_found(s: Seq<PefSectionHeader>, n: nat)
    requires
        n <= s.len(),
    ensures
        last_loader(s, n) is None <==> forall|i: int|
            0 <= i < n ==> (#[trigger] s[i]).section_kind != 4,
        forall|i: int|
            0 <= i < n && (#[trigger] s[i]).section_kind == 4 && (forall|j: int|
                i < j < n ==> (#[trigger] s[j]).section_kind != 4) ==> (last_loader(
                s,
                n,
            ) matches Some((lo, hi)) && lo == s[i].container_offset && hi == lo
                + s[i].container_size),
    decreases n,
{
    if n > 0 {
        lemma_loader_found(s, (n - 1) as nat);
    }
}

/// Whether a text is a signed number in decimal.
pub open spec fn says_signed(t: Seq<char>, n: int) -> bool {
    &&& n >= 0 ==> says_decimal(t, n)
    &&& n < 0 ==> t.len() > 0 && t[0] == '-' && says_decimal(t.skip(1), -n)
}

proof fn lemma_signed(n: i32)
    ensures
        says_signed(signed_decimal(n), n as int),
{
    if n < 0 {
        reveal_strlit("-");
        lemma_decimal_text((-n) as nat);
        assert(signed_decimal(n).skip(1) =~= decimal((-n) as nat));
    } else {
        lemma_decimal_text(n as nat);
    }
}

/// Whether the line gives the section and the offset of an entry point.
pub open spec fn is_entry_line(
    line: Seq<char>,
    tag: Seq<char>,
    section: int,
    offset: int,
) -> bool {
    exists|s: Seq<char>, o: Seq<char>| #[trigger]
        says_signed(s, section) && #[trigger] says_upper(o, offset) && line == "  "@ + tag
            + "Section="@ + s + " "@ + tag + "Offset="@ + o + seq!['\n']
}

/// Whether the line gives a label and a number.
pub open spec fn is_count_line(line: Seq<char>, label: Seq<char>, n: int) -> bool {
    exists|s: Seq<char>| #[trigger] says_decimal(s, n) && line == label + s + seq!['\n']
}

/// The loader section is printed as its three entry points, its three counts and its
/// libraries.
pub proof fn lemma_loader_text(
    info: PefLoaderInfoHeader,
    libs: Seq<LibraryView>,
    imports: nat,
    exports: nat,
) -> (l: Seq<Seq<char>>)
    ensures
        l.len() == 6,
        loader_info_text(info, libs, imports, exports) == "\nLoader:\n"@ + l[0] + l[1] + l[2]
            + l[3] + l[4] + l[5] + "\n  Imported libraries:\n"@ + libraries_text(
            libs,
            libs.len(),
        ),
        is_entry_line(l[0], "main"@, info.main_section as int, info.main_offset as int),
        is_entry_line(l[1], "init"@, info.init_section as int, info.init_offset as int),
        is_entry_line(l[2], "term"@, info.term_section as int, info.term_offset as int),
        is_count_line(l[3], "  importedLibraryCount: "@, libs.len() as int),
        is_count_line(l[4], "  totalImportedSymbolCount: "@, imports as int),
        is_count_line(l[5], "  exportedSymbolCount: "@, exports as int),
{
    reveal(loader_info_text);
    let l = seq![
        entry_text("main"@, info.main_section, info.main_offset),
        entry_text("init"@, info.init_section, info.init_offset),
        entry_text("term"@, info.term_section, info.term_offset),
        labelled("  importedLibraryCount: "@, decimal(libs.len())),
        labelled("  totalImportedSymbolCount: "@, decimal(imports)),
        labelled("  exportedSymbolCount: "@, decimal(exports)),
    ];
    lemma_signed(info.main_section);
    lemma_signed(info.init_section);
    lemma_signed(info.term_section);
    lemma_hex_texts(info.main_offset);
    lemma_hex_texts(info.init_offset);
    lemma_hex_texts(info.term_offset);
    lemma_decimal_text(libs.len());
    lemma_decimal_text(imports);
    lemma_decimal_text(exports);
    l
}

/// The line on a library gives its number and name, how many imports it provides and
/// from which on, its versions and its options.
pub proof fn lemma_library_line(i: nat, l: LibraryView) -> (f: Seq<Seq<char>>)
    ensures
        f.len() == 7,
        library_text(i, l) == "    ["@ + f[0] + "] "@ + f[1] + " syms="@ + f[2] + " first="@ + f[3]
            + " oldImp="@ + f[4] + " cur="@ + f[5] + " opts="@ + f[6] + seq!['\n'],
        is_decimal_column(f[0], 2, i as int),
        is_left(f[1], 32, l.name),
        is_decimal_column(f[2], 4, l.imported_symbol_count as int),
        is_decimal_column(f[3], 5, l.first_imported_symbol as int),
        says_eight(f[4], l.old_imp_version as int),
        says_eight(f[5], l.current_version as int),
        says_upper(f[6], l.options as int),
        f[6].len() == 4,
{
    let opts = "0x"@ + upper_hex(l.options as nat, 2);
    let f = seq![
        right(decimal(i), 2),
        left(l.name, 32),
        right(decimal(l.imported_symbol_count as nat), 4),
        right(decimal(l.first_imported_symbol as nat), 5),
        hex8(l.old_imp_version),
        hex8(l.current_version),
        opts,
    ];
    reveal_strlit("0x");
    reveal_with_fuel(sixteen_to, 3);
    lemma_upper_hex(l.options as nat, 2);
    assert(opts.skip(2) =~= upper_hex(l.options as nat, 2));
    assert forall|k: int| 2 <= k < 4 implies is_upper(#[trigger] opts[k]) by {
        assert(opts[k] == upper_hex(l.options as nat, 2)[k - 2]);
    }
    lemma_decimal_text(i);
    lemma_decimal_text(l.imported_symbol_count as nat);
    lemma_decimal_text(l.first_imported_symbol as nat);
    lemma_padded(decimal(i), 2);
    lemma_padded(l.name, 32);
    lemma_padded(decimal(l.imported_symbol_count as nat), 4);
    lemma_padded(decimal(l.first_imported_symbol as nat), 5);
    lemma_hex_texts(l.old_imp_version);
    lemma_hex_texts(l.current_version);
    assert(is_right(f[0], 2, decimal(i)));
    assert(is_right(f[2], 4, decimal(l.imported_symbol_count as nat)));
    assert(is_right(f[3], 5, decimal(l.first_imported_symbol as nat)));
    assert(library_text(i, l) =~= "    ["@ + f[0] + "] "@ + f[1] + " syms="@ + f[2] + " first="@
        + f[3] + " oldImp="@ + f[4] + " cur="@ + f[5] + " opts="@ + f[6] + seq!['\n']);
    f
}

/// The lines on the libraries come one behind the other, in the order of the libraries.
pub proof fn lemma_library_lines(l: Seq<LibraryView>, n: nat, i: int) -> (at: int)
    requires
        0 <= i < n <= l.len(),
    ensures
        ({
            let line = library_text(i as nat, l[i]);
            let all = libraries_text(l, n);
            &&& 0 <= at && at + line.len() <= all.len()
            &&& all.subrange(at, at + line.len()) == line
            &&& all.subrange(0, at) == libraries_text(l, i as nat)
            &&& i == n - 1 ==> at + line.len() == all.len()
        }),
    decreases n,
{
    let below = libraries_text(l, (n - 1) as nat);
    let all = libraries_text(l, n);
    let line = library_text(i as nat, l[i]);
    if i == n - 1 {
        let at = below.len() as int;
        assert(all.subrange(at, at + line.len()) =~= line);
        assert(all.subrange(0, at) =~= below);
        at
    } else {
        let at = lemma_library_lines(l, (n - 1) as nat, i);
        assert(all.subrange(at, at + line.len()) =~= below.subrange(at, at + line.len()));
        assert(all.subrange(0, at) =~= below.subrange(0, at));
        at
    }
}

/// What is printed on a file: nothing where its container cannot be read; else its
/// header and sections, and behind them its loader section where it has one that can be
/// read. An error is reported exactly where one of them cannot be read.
pub proof fn lemma_info(file: Seq<char>, d: Seq<u8>)
    ensures
        ({
            let (text, end) = info_of(file, d);
            &&& container(d) matches Err(e) ==> text.len() == 0 && end == Err::<(), _>(e)
            &&& container(d) matches Ok(c) ==> {
                let head = "PEF file: "@ + file + seq!['\n'] + header_text(c.header) + seq!['\n']
                    + table_heading() + section_table_text(c, c.sections.len());
                match last_loader(c.sections, c.sections.len()) {
                    None => text == head && end is Ok,
                    Some((lo, hi)) => match loader_section(d.subrange(lo as int, hi as int)) {
                        Err(e) => text == head && end == Err::<(), _>(e),
                        Ok(l) => text == head + loader_info_text(
                            l.info,
                            l.libraries,
                            l.imports.len(),
                            l.exports.len(),
                        ) && end is Ok,
                    },
                }
            }
        }),
{
    reveal(container_info);
    reveal(loader_report);
}

} // verus!
