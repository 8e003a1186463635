//! A daily document reads back as it was written.

use crate::dates;
use crate::dates::CalendarDate;
use crate::memory_summary;
use crate::memory_summary::{BlockModel, DocumentModel};
use crate::text;
use crate::text::Separator;
use vstd::prelude::*;

verus! {

// Lines

pub open spec fn one_line(s: Seq<char>) -> bool {
    forall|i: int| 0 <= i < s.len() ==> #[trigger] s[i] != '\n'
}

/// A text that is a line of its own: without a line feed, and without a carriage
/// return at its end.
pub open spec fn whole_line(s: Seq<char>) -> bool {
    one_line(s) && (s.len() > 0 ==> s.last() != '\r')
}

pub open spec fn whole_lines(lines: Seq<Seq<char>>) -> bool {
    forall|i: int| 0 <= i < lines.len() ==> whole_line(#[trigger] lines[i])
}

proof fn split_of_lines(lines: Seq<Seq<char>>)
    requires
        lines.len() > 0,
        whole_lines(lines),
    ensures
        text::split(text::joined(lines, "\n"@), Separator::Char('\n')) == lines,
{
    reveal_strlit("\n");
    assert("\n"@ =~= seq!['\n']);
    assert forall|i: int| 0 <= i < lines.len() implies text::unseparated(
        #[trigger] lines[i],
        Separator::Char('\n'),
    ) by {
        assert(whole_line(lines[i]));
    }
    text::split_of_joined(lines, '\n', Separator::Char('\n'));
}

/// Lines that are written with line feeds between them, and an empty one at the
/// end, are the lines that are read.
pub proof fn joined_lines_are_read(lines: Seq<Seq<char>>)
    requires
        lines.len() > 0,
        lines.last().len() == 0,
        whole_lines(lines),
    ensures
        text::lines(text::joined(lines, "\n"@)) == lines.drop_last(),
{
    split_of_lines(lines);
    let ended = lines.drop_last().map_values(|p: Seq<char>| text::without_cr(p));
    assert forall|i: int| 0 <= i < ended.len() implies ended[i] == lines[i] by {
        assert(whole_line(lines[i]));
    }
    assert(ended =~= lines.drop_last());
}

// Reading on

/// A document with more lines read.
pub open spec fn read_on(doc: DocumentModel, lines: Seq<Seq<char>>) -> DocumentModel
    decreases lines.len(),
{
    if lines.len() == 0 {
        doc
    } else {
        memory_summary::read_line(read_on(doc, lines.drop_last()), lines.last())
    }
}

proof fn reading_in_two_parts(a: Seq<Seq<char>>, b: Seq<Seq<char>>)
    ensures
        memory_summary::read_lines(a + b) == read_on(memory_summary::read_lines(a), b),
    decreases b.len(),
{
    if b.len() == 0 {
        assert(a + b =~= a);
    } else {
        assert((a + b).drop_last() =~= a + b.drop_last());
        assert((a + b).last() == b.last());
        reading_in_two_parts(a, b.drop_last());
    }
}

proof fn reading_on_in_two_parts(doc: DocumentModel, a: Seq<Seq<char>>, b: Seq<Seq<char>>)
    ensures
        read_on(doc, a + b) == read_on(read_on(doc, a), b),
    decreases b.len(),
{
    if b.len() == 0 {
        assert(a + b =~= a);
    } else {
        assert((a + b).drop_last() =~= a + b.drop_last());
        assert((a + b).last() == b.last());
        reading_on_in_two_parts(doc, a, b.drop_last());
    }
}

proof fn reading_one_line(doc: DocumentModel, line: Seq<char>)
    ensures
        read_on(doc, seq![line]) == memory_summary::read_line(doc, line),
{
    assert(seq![line].drop_last() =~= Seq::<Seq<char>>::empty());
    assert(read_on(doc, Seq::empty()) == doc);
}

// Plain documents

/// A line that says something, without white space at its ends.
pub open spec fn plain_line(s: Seq<char>) -> bool {
    s.len() > 0 && text::trim(s) == s && one_line(s)
}

/// An item that stands in one line as it is.
pub open spec fn plain_item(item: Seq<char>) -> bool {
    plain_line(item) && memory_summary::item_text(item) == item
}

/// Lines before the first section that are no headings.
pub open spec fn plain_preface(preface: Seq<Seq<char>>) -> bool {
    forall|i: int|
        0 <= i < preface.len() ==> {
            let line = #[trigger] preface[i];
            &&& plain_line(line)
            &&& !text::starts_with(line, "# "@)
            &&& !text::starts_with(line, "## "@)
        }
}

pub open spec fn plain_section(section: BlockModel) -> bool {
    &&& text::trim(section.topic) == section.topic
    &&& one_line(section.topic)
    &&& section.items.len() > 0
    &&& forall|k: int| 0 <= k < section.items.len() ==> plain_item(#[trigger] section.items[k])
}

/// Sections with items, in the order of their topics, all of them plain.
pub open spec fn plain_sections(sections: Seq<BlockModel>) -> bool {
    &&& memory_summary::sections_sorted(sections)
    &&& forall|i: int| 0 <= i < sections.len() ==> plain_section(#[trigger] sections[i])
}

proof fn ends_of_trimmed(s: Seq<char>)
    requires
        s.len() > 0,
        text::trim(s) == s,
    ensures
        !text::whitespace(s[0]),
        !text::whitespace(s.last()),
        s.last() != '\r',
{
    text::trim_leaves_no_blank_ends(s);
}

proof fn trimmed_by_its_ends(s: Seq<char>)
    requires
        s.len() > 0,
        !text::whitespace(s[0]),
        !text::whitespace(s.last()),
    ensures
        text::trim(s) == s,
{
}

proof fn empty_line_says_nothing(doc: DocumentModel)
    ensures
        memory_summary::read_line(doc, Seq::empty()) == doc,
        whole_line(Seq::empty()),
{
    reveal_strlit("# ");
    reveal_strlit("## ");
}

proof fn title_says_nothing(doc: DocumentModel, date: Seq<char>)
    ensures
        memory_summary::read_line(doc, "# "@ + date) == doc,
{
    reveal_strlit("# ");
    assert(("# "@ + date).take("# "@.len() as int) =~= "# "@);
}

proof fn preface_line_is_read(doc: DocumentModel, line: Seq<char>)
    requires
        doc.current is None,
        plain_line(line),
        !text::starts_with(line, "# "@),
        !text::starts_with(line, "## "@),
    ensures
        memory_summary::read_line(doc, line) == (DocumentModel {
            preface: doc.preface.push(line),
            ..doc
        }),
        whole_line(line),
{
    ends_of_trimmed(line);
}

proof fn heading_is_read(doc: DocumentModel, topic: Seq<char>)
    requires
        text::trim(topic) == topic,
        one_line(topic),
        forall|i: int|
            0 <= i < doc.sections.len() ==> text::lex_lt(
                (#[trigger] doc.sections[i]).topic,
                topic,
            ),
    ensures
        memory_summary::read_line(doc, "## "@ + topic) == (DocumentModel {
            sections: doc.sections.push(BlockModel { topic, items: Seq::empty() }),
            current: Some(topic),
            ..doc
        }),
        whole_line("## "@ + topic),
{
    reveal_strlit("# ");
    reveal_strlit("## ");
    let line = "## "@ + topic;
    assert(line.take("## "@.len() as int) =~= "## "@);
    assert(!text::starts_with(line, "# "@)) by {
        if text::starts_with(line, "# "@) {
            assert(line.take("# "@.len() as int)[1] == "# "@[1]);
            assert(line[1] == '#');
        }
    }
    assert(line.skip(3) =~= topic);
    let n = doc.sections.len() as int;
    memory_summary::slot_unique(doc.sections, topic, n);
    assert(doc.sections.insert(n, BlockModel { topic, items: Seq::empty() }) =~= doc.sections.push(
        BlockModel { topic, items: Seq::empty() },
    ));
    assert forall|i: int| 0 <= i < line.len() implies #[trigger] line[i] != '\n' by {
        if i >= 3 {
            assert(line[i] == topic[i - 3]);
        }
    }
    if topic.len() > 0 {
        ends_of_trimmed(topic);
        assert(line.last() == topic.last());
    }
}

/// The document with an item more in its last section.
pub open spec fn with_last_items(
    doc: DocumentModel,
    sections: Seq<BlockModel>,
    topic: Seq<char>,
    items: Seq<Seq<char>>,
) -> DocumentModel {
    DocumentModel {
        sections: sections.push(BlockModel { topic, items }),
        current: Some(topic),
        ..doc
    }
}

proof fn item_line_is_whole(item: Seq<char>)
    requires
        plain_item(item),
    ensures
        whole_line("- "@ + item),
{
    reveal_strlit("- ");
    let line = "- "@ + item;
    ends_of_trimmed(item);
    assert(line.last() == item.last());
    assert forall|i: int| 0 <= i < line.len() implies #[trigger] line[i] != '\n' by {
        if i >= 2 {
            assert(line[i] == item[i - 2]);
        }
    }
}

proof fn item_is_read(
    doc: DocumentModel,
    sections: Seq<BlockModel>,
    topic: Seq<char>,
    items: Seq<Seq<char>>,
    item: Seq<char>,
)
    requires
        plain_item(item),
        forall|i: int|
            0 <= i < sections.len() ==> text::lex_lt((#[trigger] sections[i]).topic, topic),
    ensures
        memory_summary::read_line(with_last_items(doc, sections, topic, items), "- "@ + item)
            == with_last_items(doc, sections, topic, items.push(item)),
{
    reveal_strlit("# ");
    reveal_strlit("## ");
    reveal_strlit("- ");
    let line = "- "@ + item;
    let before = with_last_items(doc, sections, topic, items);
    ends_of_trimmed(item);
    assert(line.last() == item.last());
    assert(line[0] == '-');
    trimmed_by_its_ends(line);
    assert(!text::starts_with(line, "# "@)) by {
        if text::starts_with(line, "# "@) {
            assert(line.take("# "@.len() as int)[0] == "# "@[0]);
        }
    }
    assert(!text::starts_with(line, "## "@)) by {
        if text::starts_with(line, "## "@) {
            assert(line.take("## "@.len() as int)[0] == "## "@[0]);
        }
    }
    assert(line.take("- "@.len() as int) =~= "- "@);
    assert(line.skip(2) =~= item);
    let n = sections.len() as int;
    let all = before.sections;
    text::lex_lt_irreflexive(topic);
    assert forall|i: int| 0 <= i < n implies text::lex_lt((#[trigger] all[i]).topic, topic) by {
        assert(all[i] == sections[i]);
    }
    memory_summary::slot_unique(all, topic, n);
    assert(memory_summary::has_section(all, topic));
    assert(memory_summary::section_items(all, topic) == items);
    assert(all.update(n, BlockModel { topic, items: items.push(item) }) =~= sections.push(
        BlockModel { topic, items: items.push(item) },
    ));
}

/// The lines of items.
pub open spec fn item_lines(items: Seq<Seq<char>>) -> Seq<Seq<char>> {
    items.map_values(|item: Seq<char>| "- "@ + memory_summary::item_text(item))
}

proof fn items_are_read(
    doc: DocumentModel,
    sections: Seq<BlockModel>,
    topic: Seq<char>,
    items: Seq<Seq<char>>,
)
    requires
        forall|k: int| 0 <= k < items.len() ==> plain_item(#[trigger] items[k]),
        forall|i: int|
            0 <= i < sections.len() ==> text::lex_lt((#[trigger] sections[i]).topic, topic),
    ensures
        read_on(with_last_items(doc, sections, topic, Seq::empty()), item_lines(items))
            == with_last_items(doc, sections, topic, items),
        whole_lines(item_lines(items)),
    decreases items.len(),
{
    let lines = item_lines(items);
    if items.len() == 0 {
        assert(items =~= Seq::<Seq<char>>::empty());
    } else {
        let less = items.drop_last();
        assert forall|k: int| 0 <= k < less.len() implies plain_item(#[trigger] less[k]) by {
            assert(less[k] == items[k]);
        }
        items_are_read(doc, sections, topic, less);
        assert(lines.drop_last() =~= item_lines(less));
        assert(plain_item(items[items.len() - 1]));
        assert(lines.last() == "- "@ + items.last());
        item_is_read(doc, sections, topic, less, items.last());
        assert(less.push(items.last()) =~= items);
        assert forall|i: int| 0 <= i < lines.len() implies whole_line(#[trigger] lines[i]) by {
            assert(plain_item(items[i]));
            item_line_is_whole(items[i]);
            assert(lines[i] == "- "@ + items[i]);
        }
    }
}

/// The lines of one section.
pub open spec fn lines_of_section(section: BlockModel) -> Seq<Seq<char>> {
    seq!["## "@ + section.topic, Seq::<char>::empty()] + item_lines(section.items)
}

proof fn section_is_read(doc: DocumentModel, section: BlockModel)
    requires
        plain_section(section),
        forall|i: int|
            0 <= i < doc.sections.len() ==> text::lex_lt(
                (#[trigger] doc.sections[i]).topic,
                section.topic,
            ),
    ensures
        read_on(doc, lines_of_section(section)) == (DocumentModel {
            sections: doc.sections.push(section),
            current: Some(section.topic),
            ..doc
        }),
        whole_lines(lines_of_section(section)),
{
    let topic = section.topic;
    let head = seq!["## "@ + topic, Seq::<char>::empty()];
    heading_is_read(doc, topic);
    let opened = with_last_items(doc, doc.sections, topic, Seq::empty());
    empty_line_says_nothing(opened);
    assert(head.drop_last() =~= seq!["## "@ + topic]);
    reading_one_line(doc, "## "@ + topic);
    assert(read_on(doc, head) == opened);
    items_are_read(doc, doc.sections, topic, section.items);
    reading_on_in_two_parts(doc, head, item_lines(section.items));
    let lines = lines_of_section(section);
    assert forall|i: int| 0 <= i < lines.len() implies whole_line(#[trigger] lines[i]) by {
        if i >= 2 {
            assert(lines[i] == item_lines(section.items)[i - 2]);
        }
    }
}

proof fn whole_lines_of_both(a: Seq<Seq<char>>, b: Seq<Seq<char>>)
    requires
        whole_lines(a),
        whole_lines(b),
    ensures
        whole_lines(a + b),
{
    let both = a + b;
    assert forall|i: int| 0 <= i < both.len() implies whole_line(#[trigger] both[i]) by {
        if i < a.len() {
            assert(both[i] == a[i]);
        } else {
            assert(both[i] == b[i - a.len()]);
        }
    }
}

/// What reading the lines of the sections adds to a document.
pub open spec fn with_sections(doc: DocumentModel, sections: Seq<BlockModel>) -> DocumentModel {
    DocumentModel {
        sections,
        current: if sections.len() == 0 {
            doc.current
        } else {
            Some(sections.last().topic)
        },
        ..doc
    }
}

proof fn sections_are_read(doc: DocumentModel, sections: Seq<BlockModel>)
    requires
        doc.sections.len() == 0,
        plain_sections(sections),
    ensures
        read_on(doc, memory_summary::section_lines(sections)) == with_sections(doc, sections),
        whole_lines(memory_summary::section_lines(sections)),
    decreases sections.len(),
{
    let lines = memory_summary::section_lines(sections);
    if sections.len() == 0 {
        assert(doc.sections =~= sections);
    } else {
        let less = sections.drop_last();
        let section = sections.last();
        assert(plain_section(sections[sections.len() - 1]));
        assert(plain_sections(less)) by {
            assert forall|i: int| 0 <= i < less.len() implies plain_section(#[trigger] less[i]) by {
                assert(less[i] == sections[i]);
            }
            assert forall|i: int, j: int| 0 <= i < j < less.len() implies text::lex_lt(
                (#[trigger] less[i]).topic,
                (#[trigger] less[j]).topic,
            ) by {
                assert(less[i] == sections[i] && less[j] == sections[j]);
            }
        }
        sections_are_read(doc, less);
        let before = memory_summary::section_lines(less);
        let gap = if before.len() == 0 {
            Seq::empty()
        } else {
            seq![Seq::<char>::empty()]
        };
        let so_far = with_sections(doc, less);
        reading_on_in_two_parts(doc, before, gap);
        empty_line_says_nothing(so_far);
        reading_one_line(so_far, Seq::empty());
        assert(read_on(doc, before + gap) == so_far);
        assert forall|i: int| 0 <= i < so_far.sections.len() implies text::lex_lt(
            (#[trigger] so_far.sections[i]).topic,
            section.topic,
        ) by {
            assert(so_far.sections[i] == sections[i]);
            assert(text::lex_lt(sections[i].topic, sections[sections.len() - 1].topic));
        }
        section_is_read(so_far, section);
        reading_on_in_two_parts(doc, before + gap, lines_of_section(section));
        assert(lines =~= before + gap + lines_of_section(section));
        assert(less.push(section) =~= sections);
        assert(whole_lines(gap));
        whole_lines_of_both(before, gap);
        whole_lines_of_both(before + gap, lines_of_section(section));
    }
}

proof fn preface_is_read(doc: DocumentModel, preface: Seq<Seq<char>>)
    requires
        doc.current is None,
        doc.preface.len() == 0,
        plain_preface(preface),
    ensures
        read_on(doc, preface) == (DocumentModel { preface, ..doc }),
        whole_lines(preface),
    decreases preface.len(),
{
    if preface.len() == 0 {
        assert(doc.preface =~= preface);
    } else {
        let less = preface.drop_last();
        assert(plain_preface(less)) by {
            assert forall|i: int| 0 <= i < less.len() implies {
                let line = #[trigger] less[i];
                &&& plain_line(line)
                &&& !text::starts_with(line, "# "@)
                &&& !text::starts_with(line, "## "@)
            } by {
                assert(less[i] == preface[i]);
            }
        }
        preface_is_read(doc, less);
        assert(plain_line(preface[preface.len() - 1]));
        preface_line_is_read(DocumentModel { preface: less, ..doc }, preface.last());
        assert(less.push(preface.last()) =~= preface);
        assert forall|i: int| 0 <= i < preface.len() implies whole_line(#[trigger] preface[i]) by {
            if i < less.len() {
                assert(less[i] == preface[i]);
            }
        }
    }
}

/// A plain document reads back as it was written: the same preface and the same
/// sections.
pub proof fn written_document_reads_back(
    date: Seq<char>,
    preface: Seq<Seq<char>>,
    sections: Seq<BlockModel>,
)
    requires
        whole_line("# "@ + date),
        plain_preface(preface),
        plain_sections(sections),
    ensures
        ({
            let read = memory_summary::read_lines(
                text::lines(memory_summary::document_text(date, preface, sections)),
            );
            read.preface == preface && read.sections == sections
        }),
{
    let empty = DocumentModel { preface: Seq::empty(), sections: Seq::empty(), current: None };
    let head = seq!["# "@ + date, Seq::<char>::empty()];
    let front = if preface.len() == 0 {
        Seq::empty()
    } else {
        preface.push(Seq::<char>::empty())
    };
    let body = memory_summary::section_lines(sections);
    let end = seq![Seq::<char>::empty()];
    let lines = memory_summary::document_lines(date, preface, sections);
    // The lines are read as they were written.
    empty_line_says_nothing(empty);
    preface_is_read(empty, preface);
    let fronted = DocumentModel { preface, ..empty };
    sections_are_read(fronted, sections);
    assert(whole_lines(head)) by {
        assert forall|i: int| 0 <= i < head.len() implies whole_line(#[trigger] head[i]) by {}
    }
    assert(whole_lines(end));
    if preface.len() > 0 {
        whole_lines_of_both(preface, end);
        assert(front =~= preface + end);
    }
    assert(whole_lines(front));
    whole_lines_of_both(head, front);
    whole_lines_of_both(head + front, body);
    whole_lines_of_both(head + front + body, end);
    joined_lines_are_read(lines);
    assert(lines.drop_last() =~= head + front + body);
    // Each part adds what it holds.
    title_says_nothing(empty, date);
    let title = seq!["# "@ + date];
    assert(head.drop_last() =~= title);
    assert(title.drop_last().len() == 0);
    assert(memory_summary::read_lines(title.drop_last()) == empty);
    assert(memory_summary::read_lines(title) == memory_summary::read_line(empty, title.last()));
    assert(memory_summary::read_lines(head) == memory_summary::read_line(empty, head.last()));
    reading_in_two_parts(head, front);
    if preface.len() > 0 {
        reading_on_in_two_parts(empty, preface, end);
        reading_one_line(fronted, Seq::empty());
        empty_line_says_nothing(fronted);
    } else {
        assert(preface =~= Seq::<Seq<char>>::empty());
    }
    assert(memory_summary::read_lines(head + front) == fronted);
    reading_in_two_parts(head + front, body);
}

// Dates

proof fn decimal_is_one_line(n: nat)
    ensures
        whole_line(text::decimal(n)),
        text::decimal(n).len() > 0,
    decreases n,
{
    let s = text::decimal(n);
    if n >= 10 {
        decimal_is_one_line(n / 10);
        assert forall|i: int| 0 <= i < s.len() implies #[trigger] s[i] != '\n' by {
            if i < s.len() - 1 {
                assert(s[i] == text::decimal(n / 10)[i]);
            }
        }
    }
}

proof fn padded_is_one_line(n: nat, width: nat)
    ensures
        whole_line(dates::padded(n, width)),
        dates::padded(n, width).len() > 0,
{
    decimal_is_one_line(n);
    let s = dates::padded(n, width);
    let digits = text::decimal(n);
    assert(s.last() == digits.last());
    assert forall|i: int| 0 <= i < s.len() implies #[trigger] s[i] != '\n' by {
        let from = s.len() - digits.len();
        if i >= from {
            assert(s[i] == digits[i - from]);
        }
    }
}

proof fn date_is_one_line(date: CalendarDate)
    ensures
        whole_line("# "@ + dates::full_date_text(date)),
{
    reveal_strlit("# ");
    padded_is_one_line(date.month as nat, 2);
    padded_is_one_line(date.day as nat, 2);
    let y = dates::year_text(date.year as int);
    assert(one_line(y)) by {
        if 0 <= date.year <= 9999 {
            padded_is_one_line(date.year as nat, 4);
        } else if date.year > 9999 {
            padded_is_one_line(date.year as nat, 4);
            let rest = dates::padded(date.year as nat, 4);
            assert forall|i: int| 0 <= i < y.len() implies #[trigger] y[i] != '\n' by {
                if i > 0 {
                    assert(y[i] == rest[i - 1]);
                }
            }
        } else {
            padded_is_one_line((-date.year) as nat, 4);
            let rest = dates::padded((-date.year) as nat, 4);
            assert forall|i: int| 0 <= i < y.len() implies #[trigger] y[i] != '\n' by {
                if i > 0 {
                    assert(y[i] == rest[i - 1]);
                }
            }
        }
    }
    let m = dates::padded(date.month as nat, 2);
    let d = dates::padded(date.day as nat, 2);
    let whole = dates::full_date_text(date);
    let line = "# "@ + whole;
    assert forall|i: int| 0 <= i < line.len() implies #[trigger] line[i] != '\n' by {
        if i >= 2 {
            let k = i - 2;
            assert(line[i] == whole[k]);
            if k < y.len() {
                assert(whole[k] == y[k]);
            } else if k > y.len() && k < y.len() + 1 + m.len() {
                assert(whole[k] == m[k - y.len() - 1]);
            } else if k > y.len() + 1 + m.len() {
                assert(whole[k] == d[k - y.len() - 2 - m.len()]);
            }
        }
    }
    assert(line.last() == d.last());
}

/// The document of a day reads back as it was written, where it is plain.
pub proof fn daily_document_reads_back(
    date: CalendarDate,
    preface: Seq<Seq<char>>,
    sections: Seq<BlockModel>,
)
    requires
        plain_preface(preface),
        plain_sections(sections),
    ensures
        ({
            let read = memory_summary::read_lines(
                text::lines(
                    memory_summary::document_text(dates::full_date_text(date), preface, sections),
                ),
            );
            read.preface == preface && read.sections == sections
        }),
{
    date_is_one_line(date);
    written_document_reads_back(dates::full_date_text(date), preface, sections);
}

// Merging into what was written

/// A text that stands in one line, without white space at its ends.
pub open spec fn line_text(s: Seq<char>) -> bool {
    one_line(s) && text::trim(s) == s
}

/// A topic and items that each stand in one line.
pub open spec fn lined_section(section: BlockModel) -> bool {
    &&& line_text(section.topic)
    &&& forall|k: int| 0 <= k < section.items.len() ==> one_line(#[trigger] section.items[k])
}

pub open spec fn lined_sections(sections: Seq<BlockModel>) -> bool {
    forall|i: int| 0 <= i < sections.len() ==> lined_section(#[trigger] sections[i])
}

pub open spec fn lined_preface(preface: Seq<Seq<char>>) -> bool {
    forall|i: int| 0 <= i < preface.len() ==> line_text(#[trigger] preface[i])
}

proof fn part_is_one_line(s: Seq<char>, from: int, to: int)
    requires
        one_line(s),
        0 <= from <= to <= s.len(),
    ensures
        one_line(s.subrange(from, to)),
{
    let part = s.subrange(from, to);
    assert forall|i: int| 0 <= i < part.len() implies #[trigger] part[i] != '\n' by {
        assert(part[i] == s[from + i]);
    }
}

proof fn trimmed_is_line_text(s: Seq<char>)
    requires
        one_line(s),
    ensures
        line_text(text::trim(s)),
{
    text::trim_is_part(s);
    let t = text::trim(s);
    let from = choose|from: int|
        0 <= from <= s.len() - t.len() && #[trigger] s.subrange(from, from + t.len()) == t;
    part_is_one_line(s, from, from + t.len());
    text::trim_idempotent(s);
}

proof fn stripped_is_one_line(s: Seq<char>)
    requires
        one_line(s),
    ensures
        one_line(text::strip_start(s, "- "@)),
    decreases s.len(),
{
    reveal_strlit("- ");
    if text::starts_with(s, "- "@) {
        let rest = s.skip(2);
        assert(rest =~= s.subrange(2, s.len() as int));
        part_is_one_line(s, 2, s.len() as int);
        stripped_is_one_line(rest);
    }
}

proof fn one_line_is_not_replaced(s: Seq<char>)
    requires
        one_line(s),
    ensures
        text::replaced(s, "\r\n"@, "\n"@) == s,
    decreases s.len(),
{
    reveal_strlit("\r\n");
    if s.len() > 0 {
        if text::starts_with(s, "\r\n"@) {
            assert(s.take(2)[1] == "\r\n"@[1]);
            assert(s[1] == '\n');
        }
        let rest = s.drop_first();
        assert(rest =~= s.subrange(1, s.len() as int));
        part_is_one_line(s, 1, s.len() as int);
        one_line_is_not_replaced(rest);
        assert(seq![s[0]] + rest =~= s);
    }
}

proof fn item_text_is_line_text(item: Seq<char>)
    requires
        one_line(item),
    ensures
        line_text(memory_summary::item_text(item)),
{
    trimmed_is_line_text(item);
    let stripped = text::strip_start(text::trim(item), "- "@);
    stripped_is_one_line(text::trim(item));
    trimmed_is_line_text(stripped);
    one_line_is_not_replaced(text::trim(stripped));
}

/// An item that is its own text and stands in one line is plain.
proof fn own_text_is_plain(item: Seq<char>)
    requires
        item.len() > 0,
        one_line(item),
        memory_summary::item_text(item) == item,
    ensures
        plain_item(item),
{
    item_text_is_line_text(item);
}

proof fn set_items_keeps_lines(
    sections: Seq<BlockModel>,
    topic: Seq<char>,
    items: Seq<Seq<char>>,
)
    requires
        lined_sections(sections),
        lined_section(BlockModel { topic, items }),
    ensures
        lined_sections(memory_summary::with_section(sections, topic)),
        lined_sections(memory_summary::set_items(sections, topic, items)),
{
    let all = memory_summary::with_section(sections, topic);
    memory_summary::slot_bounds(sections, topic);
    let k = memory_summary::slot(sections, topic);
    assert forall|i: int| 0 <= i < all.len() implies lined_section(#[trigger] all[i]) by {
        if !memory_summary::has_section(sections, topic) {
            if i < k {
                assert(all[i] == sections[i]);
            } else if i > k {
                assert(all[i] == sections[i - 1]);
            }
        }
    }
    let changed = memory_summary::set_items(sections, topic, items);
    memory_summary::slot_bounds(all, topic);
    memory_summary::section_is_found(sections, topic);
    assert forall|i: int| 0 <= i < changed.len() implies lined_section(#[trigger] changed[i]) by {
        if i != memory_summary::slot(all, topic) {
            assert(changed[i] == all[i]);
        }
    }
}

proof fn section_items_are_lines(sections: Seq<BlockModel>, topic: Seq<char>)
    requires
        lined_sections(sections),
    ensures
        forall|k: int|
            0 <= k < memory_summary::section_items(sections, topic).len() ==> one_line(
                #[trigger] memory_summary::section_items(sections, topic)[k],
            ),
{
    memory_summary::slot_bounds(sections, topic);
    if memory_summary::has_section(sections, topic) {
        assert(lined_section(sections[memory_summary::slot(sections, topic)]));
    }
}

proof fn reading_gives_lines(doc: DocumentModel, line: Seq<char>)
    requires
        one_line(line),
        lined_preface(doc.preface),
        lined_sections(doc.sections),
        doc.current is Some ==> line_text(doc.current->0),
    ensures
        ({
            let read = memory_summary::read_line(doc, line);
            &&& lined_preface(read.preface)
            &&& lined_sections(read.sections)
            &&& read.current is Some ==> line_text(read.current->0)
        }),
{
    reveal_strlit("## ");
    reveal_strlit("- ");
    let trimmed = text::trim(line);
    trimmed_is_line_text(line);
    if text::starts_with(line, "# "@) {
    } else if text::starts_with(line, "## "@) {
        assert(line.skip(3) =~= line.subrange(3, line.len() as int));
        part_is_one_line(line, 3, line.len() as int);
        let topic = text::trim(line.skip(3));
        trimmed_is_line_text(line.skip(3));
        set_items_keeps_lines(doc.sections, topic, Seq::empty());
    } else if trimmed.len() > 0 {
        match doc.current {
            None => {
                let preface = doc.preface.push(trimmed);
                assert forall|i: int| 0 <= i < preface.len() implies line_text(
                    #[trigger] preface[i],
                ) by {
                    if i < doc.preface.len() {
                        assert(preface[i] == doc.preface[i]);
                    }
                }
            },
            Some(topic) => {
                let item = if text::starts_with(trimmed, "- "@) {
                    text::trim(trimmed.skip(2))
                } else {
                    trimmed
                };
                if text::starts_with(trimmed, "- "@) {
                    assert(trimmed.skip(2) =~= trimmed.subrange(2, trimmed.len() as int));
                    part_is_one_line(trimmed, 2, trimmed.len() as int);
                    trimmed_is_line_text(trimmed.skip(2));
                }
                let held = memory_summary::section_items(doc.sections, topic);
                section_items_are_lines(doc.sections, topic);
                let items = held.push(item);
                assert forall|k: int| 0 <= k < items.len() implies one_line(
                    #[trigger] items[k],
                ) by {
                    if k < held.len() {
                        assert(items[k] == held[k]);
                    }
                }
                set_items_keeps_lines(doc.sections, topic, items);
            },
        }
    }
}

proof fn lines_are_one_line_each(s: Seq<char>)
    ensures
        forall|i: int| 0 <= i < text::lines(s).len() ==> one_line(#[trigger] text::lines(s)[i]),
{
    text::pieces_are_unseparated(s, Separator::Char('\n'));
    let pieces = text::split(s, Separator::Char('\n'));
    let all = text::lines(s);
    assert forall|i: int| 0 <= i < all.len() implies one_line(#[trigger] all[i]) by {
        assert(text::unseparated(pieces[i], Separator::Char('\n')));
        assert(one_line(pieces[i]));
        if i < pieces.len() - 1 {
            assert(all[i] == text::without_cr(pieces[i]));
            if all[i] != pieces[i] {
                assert(all[i] =~= pieces[i].subrange(0, pieces[i].len() - 1));
                part_is_one_line(pieces[i], 0, pieces[i].len() - 1);
            }
        } else {
            assert(all[i] == pieces.last());
        }
    }
}

proof fn read_document_has_lines(lines: Seq<Seq<char>>)
    requires
        forall|i: int| 0 <= i < lines.len() ==> one_line(#[trigger] lines[i]),
    ensures
        ({
            let read = memory_summary::read_lines(lines);
            &&& lined_preface(read.preface)
            &&& lined_sections(read.sections)
            &&& read.current is Some ==> line_text(read.current->0)
        }),
    decreases lines.len(),
{
    if lines.len() > 0 {
        let less = lines.drop_last();
        assert forall|i: int| 0 <= i < less.len() implies one_line(#[trigger] less[i]) by {
            assert(less[i] == lines[i]);
        }
        read_document_has_lines(less);
        assert(one_line(lines[lines.len() - 1]));
        reading_gives_lines(memory_summary::read_lines(less), lines.last());
    }
}

proof fn with_items_has_lines(items: Seq<Seq<char>>, more: Seq<Seq<char>>)
    requires
        forall|k: int| 0 <= k < items.len() ==> one_line(#[trigger] items[k]),
        forall|k: int| 0 <= k < more.len() ==> one_line(#[trigger] more[k]),
    ensures
        forall|k: int|
            0 <= k < memory_summary::with_items(items, more).len() ==> one_line(
                #[trigger] memory_summary::with_items(items, more)[k],
            ),
    decreases more.len(),
{
    if more.len() > 0 {
        let less = more.drop_last();
        assert forall|k: int| 0 <= k < less.len() implies one_line(#[trigger] less[k]) by {
            assert(less[k] == more[k]);
        }
        with_items_has_lines(items, less);
        let before = memory_summary::with_items(items, less);
        let all = memory_summary::with_items(items, more);
        assert(one_line(more[more.len() - 1]));
        assert forall|k: int| 0 <= k < all.len() implies one_line(#[trigger] all[k]) by {
            if k < before.len() {
                assert(all[k] == before[k]);
            }
        }
    }
}

proof fn merging_keeps_lines(sections: Seq<BlockModel>, blocks: Seq<BlockModel>)
    requires
        lined_sections(sections),
        lined_sections(blocks),
    ensures
        lined_sections(memory_summary::merge_blocks(sections, blocks)),
    decreases blocks.len(),
{
    if blocks.len() > 0 {
        let less = blocks.drop_last();
        assert forall|i: int| 0 <= i < less.len() implies lined_section(#[trigger] less[i]) by {
            assert(less[i] == blocks[i]);
        }
        merging_keeps_lines(sections, less);
        let before = memory_summary::merge_blocks(sections, less);
        let block = blocks[blocks.len() - 1];
        assert(lined_section(block));
        section_items_are_lines(before, block.topic);
        let held = memory_summary::section_items(before, block.topic);
        with_items_has_lines(held, block.items);
        set_items_keeps_lines(
            before,
            block.topic,
            memory_summary::with_items(held, block.items),
        );
    }
}

proof fn written_section_has_whole_lines(section: BlockModel)
    requires
        lined_section(section),
    ensures
        whole_lines(lines_of_section(section)),
{
    reveal_strlit("## ");
    reveal_strlit("- ");
    let lines = lines_of_section(section);
    let topic = section.topic;
    assert forall|i: int| 0 <= i < lines.len() implies whole_line(#[trigger] lines[i]) by {
        if i == 0 {
            let line = "## "@ + topic;
            assert forall|k: int| 0 <= k < line.len() implies #[trigger] line[k] != '\n' by {
                if k >= 3 {
                    assert(line[k] == topic[k - 3]);
                }
            }
            if topic.len() > 0 {
                ends_of_trimmed(topic);
                assert(line.last() == topic.last());
            }
        } else if i >= 2 {
            let item = section.items[i - 2];
            let said = memory_summary::item_text(item);
            let line = "- "@ + said;
            assert(lines[i] == item_lines(section.items)[i - 2]);
            assert(one_line(item));
            item_text_is_line_text(item);
            assert forall|k: int| 0 <= k < line.len() implies #[trigger] line[k] != '\n' by {
                if k >= 2 {
                    assert(line[k] == said[k - 2]);
                }
            }
            if said.len() > 0 {
                ends_of_trimmed(said);
                assert(line.last() == said.last());
            }
        }
    }
}

proof fn written_sections_have_whole_lines(sections: Seq<BlockModel>)
    requires
        lined_sections(sections),
    ensures
        whole_lines(memory_summary::section_lines(sections)),
    decreases sections.len(),
{
    if sections.len() > 0 {
        let less = sections.drop_last();
        assert forall|i: int| 0 <= i < less.len() implies lined_section(#[trigger] less[i]) by {
            assert(less[i] == sections[i]);
        }
        written_sections_have_whole_lines(less);
        let section = sections[sections.len() - 1];
        assert(lined_section(section));
        written_section_has_whole_lines(section);
        if section.items.len() > 0 {
            let before = memory_summary::section_lines(less);
            let gap = if before.len() == 0 {
                Seq::empty()
            } else {
                seq![Seq::<char>::empty()]
            };
            assert(whole_lines(gap));
            whole_lines_of_both(before, gap);
            whole_lines_of_both(before + gap, lines_of_section(section));
            assert(memory_summary::section_lines(sections) =~= before + gap + lines_of_section(
                section,
            ));
        }
    }
}

proof fn written_document_is_read_by_its_lines(
    date: Seq<char>,
    preface: Seq<Seq<char>>,
    sections: Seq<BlockModel>,
)
    requires
        whole_line("# "@ + date),
        lined_preface(preface),
        lined_sections(sections),
    ensures
        text::lines(memory_summary::document_text(date, preface, sections))
            == memory_summary::document_lines(date, preface, sections).drop_last(),
{
    let head = seq!["# "@ + date, Seq::<char>::empty()];
    let end = seq![Seq::<char>::empty()];
    let front = if preface.len() == 0 {
        Seq::empty()
    } else {
        preface.push(Seq::<char>::empty())
    };
    let body = memory_summary::section_lines(sections);
    assert(whole_lines(head)) by {
        assert forall|i: int| 0 <= i < head.len() implies whole_line(#[trigger] head[i]) by {}
    }
    assert(whole_lines(end));
    assert(whole_lines(preface)) by {
        assert forall|i: int| 0 <= i < preface.len() implies whole_line(#[trigger] preface[i]) by {
            assert(line_text(preface[i]));
            if preface[i].len() > 0 {
                ends_of_trimmed(preface[i]);
            }
        }
    }
    if preface.len() > 0 {
        whole_lines_of_both(preface, end);
        assert(front =~= preface + end);
    }
    assert(whole_lines(front));
    written_sections_have_whole_lines(sections);
    whole_lines_of_both(head, front);
    whole_lines_of_both(head + front, body);
    whole_lines_of_both(head + front + body, end);
    joined_lines_are_read(memory_summary::document_lines(date, preface, sections));
}

/// The section of the topic holds the item.
pub open spec fn has_item(doc: DocumentModel, topic: Seq<char>, item: Seq<char>) -> bool {
    memory_summary::section_items(doc.sections, topic).contains(item)
}

proof fn reading_keeps_items(doc: DocumentModel, line: Seq<char>, topic: Seq<char>, item: Seq<char>)
    requires
        memory_summary::sections_sorted(doc.sections),
        has_item(doc, topic, item),
    ensures
        has_item(memory_summary::read_line(doc, line), topic, item),
{
    let held = memory_summary::section_items(doc.sections, topic);
    let k = choose|k: int| 0 <= k < held.len() && held[k] == item;
    let trimmed = text::trim(line);
    if text::starts_with(line, "# "@) {
    } else if text::starts_with(line, "## "@) {
        let opened = text::trim(line.skip(3));
        memory_summary::section_is_found(doc.sections, opened);
        if opened != topic {
            let all = memory_summary::with_section(doc.sections, opened);
            let items = memory_summary::section_items(doc.sections, opened);
            memory_summary::slot_bounds(all, opened);
            assert(memory_summary::set_items(doc.sections, opened, items) =~= all);
            memory_summary::set_items_of_one_topic(doc.sections, opened, items, topic);
        }
    } else if trimmed.len() > 0 && doc.current is Some {
        let current = doc.current->0;
        let added = if text::starts_with(trimmed, "- "@) {
            text::trim(trimmed.skip(2))
        } else {
            trimmed
        };
        let items = memory_summary::section_items(doc.sections, current).push(added);
        if current == topic {
            memory_summary::set_items_are_found(doc.sections, topic, items);
            assert(items[k] == item);
        } else {
            memory_summary::set_items_of_one_topic(doc.sections, current, items, topic);
        }
    }
}

proof fn reading_on_keeps_items(
    doc: DocumentModel,
    lines: Seq<Seq<char>>,
    topic: Seq<char>,
    item: Seq<char>,
)
    requires
        memory_summary::sections_sorted(doc.sections),
    ensures
        memory_summary::sections_sorted(read_on(doc, lines).sections),
        has_item(doc, topic, item) ==> has_item(read_on(doc, lines), topic, item),
    decreases lines.len(),
{
    if lines.len() > 0 {
        let less = lines.drop_last();
        reading_on_keeps_items(doc, less, topic, item);
        memory_summary::reading_keeps_order(read_on(doc, less), lines.last());
        if has_item(doc, topic, item) {
            reading_keeps_items(read_on(doc, less), lines.last(), topic, item);
        }
    }
}

proof fn item_line_is_no_heading(said: Seq<char>)
    ensures
        !text::starts_with("- "@ + said, "# "@),
        !text::starts_with("- "@ + said, "## "@),
{
    reveal_strlit("# ");
    reveal_strlit("## ");
    reveal_strlit("- ");
    let line = "- "@ + said;
    assert(line[0] == '-');
    if text::starts_with(line, "# "@) {
        assert(line.take("# "@.len() as int)[0] == "# "@[0]);
    }
    if text::starts_with(line, "## "@) {
        assert(line.take("## "@.len() as int)[0] == "## "@[0]);
    }
}

proof fn plain_item_is_added(doc: DocumentModel, topic: Seq<char>, item: Seq<char>)
    requires
        doc.current == Some(topic),
        plain_item(item),
    ensures
        has_item(memory_summary::read_line(doc, "- "@ + item), topic, item),
{
    reveal_strlit("- ");
    let line = "- "@ + item;
    item_line_is_no_heading(item);
    ends_of_trimmed(item);
    assert(line.last() == item.last());
    assert(line[0] == '-');
    trimmed_by_its_ends(line);
    assert(line.take("- "@.len() as int) =~= "- "@);
    assert(line.skip(2) =~= item);
    let held = memory_summary::section_items(doc.sections, topic);
    memory_summary::set_items_are_found(doc.sections, topic, held.push(item));
    assert(held.push(item)[held.len() as int] == item);
}

proof fn written_items_are_held(
    doc: DocumentModel,
    topic: Seq<char>,
    items: Seq<Seq<char>>,
    item: Seq<char>,
)
    requires
        memory_summary::sections_sorted(doc.sections),
        doc.current == Some(topic),
        plain_item(item),
    ensures
        read_on(doc, item_lines(items)).current == Some(topic),
        memory_summary::sections_sorted(read_on(doc, item_lines(items)).sections),
        (exists|k: int| 0 <= k < items.len() && memory_summary::item_text(#[trigger] items[k])
            == item) ==> has_item(read_on(doc, item_lines(items)), topic, item),
    decreases items.len(),
{
    let lines = item_lines(items);
    if items.len() > 0 {
        let less = items.drop_last();
        written_items_are_held(doc, topic, less, item);
        assert(lines.drop_last() =~= item_lines(less));
        let said = memory_summary::item_text(items.last());
        assert(lines.last() == "- "@ + said);
        let before = read_on(doc, item_lines(less));
        item_line_is_no_heading(said);
        memory_summary::reading_keeps_order(before, lines.last());
        if exists|k: int| 0 <= k < items.len() && memory_summary::item_text(#[trigger] items[k])
            == item {
            let k = choose|k: int|
                0 <= k < items.len() && memory_summary::item_text(#[trigger] items[k]) == item;
            if k == items.len() - 1 {
                plain_item_is_added(before, topic, item);
            } else {
                assert(less[k] == items[k]);
                reading_keeps_items(before, lines.last(), topic, item);
            }
        }
    }
}

proof fn written_section_is_held(doc: DocumentModel, section: BlockModel, item: Seq<char>)
    requires
        memory_summary::sections_sorted(doc.sections),
        line_text(section.topic),
        plain_item(item),
        memory_summary::holds_item(section.items, item),
    ensures
        has_item(read_on(doc, lines_of_section(section)), section.topic, item),
{
    reveal_strlit("# ");
    reveal_strlit("## ");
    let topic = section.topic;
    let heading = "## "@ + topic;
    assert(heading.take("## "@.len() as int) =~= "## "@);
    assert(!text::starts_with(heading, "# "@)) by {
        if text::starts_with(heading, "# "@) {
            assert(heading.take("# "@.len() as int)[1] == "# "@[1]);
            assert(heading[1] == '#');
        }
    }
    assert(heading.skip(3) =~= topic);
    let opened = memory_summary::read_line(doc, heading);
    memory_summary::reading_keeps_order(doc, heading);
    assert(opened.current == Some(topic));
    empty_line_says_nothing(opened);
    let head = seq![heading, Seq::<char>::empty()];
    assert(head.drop_last() =~= seq![heading]);
    reading_one_line(doc, heading);
    assert(read_on(doc, head) == opened);
    reading_on_in_two_parts(doc, head, item_lines(section.items));
    written_items_are_held(opened, topic, section.items, item);
}

proof fn written_sections_are_held(
    doc: DocumentModel,
    sections: Seq<BlockModel>,
    i: int,
    item: Seq<char>,
)
    requires
        memory_summary::sections_sorted(doc.sections),
        lined_sections(sections),
        0 <= i < sections.len(),
        plain_item(item),
        memory_summary::holds_item(sections[i].items, item),
    ensures
        has_item(
            read_on(doc, memory_summary::section_lines(sections)),
            sections[i].topic,
            item,
        ),
    decreases sections.len(),
{
    let less = sections.drop_last();
    let section = sections[sections.len() - 1];
    let topic = sections[i].topic;
    let before = memory_summary::section_lines(less);
    let gap = if before.len() == 0 {
        Seq::empty()
    } else {
        seq![Seq::<char>::empty()]
    };
    if section.items.len() > 0 {
        assert(memory_summary::section_lines(sections) =~= before + gap + lines_of_section(
            section,
        ));
        reading_on_in_two_parts(doc, before + gap, lines_of_section(section));
        reading_on_in_two_parts(doc, before, gap);
    }
    if i == sections.len() - 1 {
        assert(lined_section(sections[i]));
        reading_on_keeps_items(doc, before + gap, topic, item);
        written_section_is_held(read_on(doc, before + gap), section, item);
    } else {
        assert forall|k: int| 0 <= k < less.len() implies lined_section(#[trigger] less[k]) by {
            assert(less[k] == sections[k]);
        }
        assert(less[i] == sections[i]);
        written_sections_are_held(doc, less, i, item);
        reading_on_keeps_items(doc, before, topic, item);
        if section.items.len() > 0 {
            reading_on_keeps_items(read_on(doc, before), gap, topic, item);
            reading_on_keeps_items(
                read_on(doc, before + gap),
                lines_of_section(section),
                topic,
                item,
            );
        }
    }
}

/// What a document holds is held when it is read again, whatever stands beside
/// it: an item that is its own text, in the section of its topic.
pub proof fn written_item_is_held(
    date: CalendarDate,
    preface: Seq<Seq<char>>,
    sections: Seq<BlockModel>,
    topic: Seq<char>,
    item: Seq<char>,
)
    requires
        lined_preface(preface),
        lined_sections(sections),
        plain_item(item),
        memory_summary::holds_item(memory_summary::section_items(sections, topic), item),
    ensures
        has_item(
            memory_summary::read_lines(
                text::lines(
                    memory_summary::document_text(dates::full_date_text(date), preface, sections),
                ),
            ),
            topic,
            item,
        ),
{
    let said = dates::full_date_text(date);
    date_is_one_line(date);
    written_document_is_read_by_its_lines(said, preface, sections);
    let front = seq!["# "@ + said, Seq::<char>::empty()] + (if preface.len() == 0 {
        Seq::empty()
    } else {
        preface.push(Seq::<char>::empty())
    });
    let body = memory_summary::section_lines(sections);
    assert(memory_summary::document_lines(said, preface, sections).drop_last() =~= front + body);
    reading_in_two_parts(front, body);
    memory_summary::read_sections_are_sorted(front);
    memory_summary::slot_bounds(sections, topic);
    assert(memory_summary::has_section(sections, topic));
    written_sections_are_held(
        memory_summary::read_lines(front),
        sections,
        memory_summary::slot(sections, topic),
        item,
    );
}

/// Blocks as they come of candidates: topics and items in one line each, without
/// anything that writing them would take away.
pub open spec fn clean_blocks(blocks: Seq<BlockModel>) -> bool {
    forall|b: int|
        0 <= b < blocks.len() ==> {
            let block = #[trigger] blocks[b];
            &&& line_text(block.topic)
            &&& forall|k: int|
                0 <= k < block.items.len() ==> {
                    let item = #[trigger] block.items[k];
                    item.len() > 0 && one_line(item) && memory_summary::item_text(item) == item
                }
        }
}

/// Merging is written once: blocks that were merged into a document, whatever it
/// held, change nothing when they are merged into what was written.
pub proof fn merging_is_written_once(
    date: CalendarDate,
    existing: Option<&str>,
    blocks: Seq<BlockModel>,
    written: &str,
)
    requires
        memory_summary::merged_document(date, existing, blocks) == Some(written@),
        clean_blocks(blocks),
    ensures
        memory_summary::merged_document(date, Some(written), blocks) is None,
{
    let raw = match existing {
        Some(raw) => raw@,
        None => ""@,
    };
    let doc = memory_summary::existing_document(existing);
    assert(doc == memory_summary::read_lines(text::lines(raw)));
    let merged = memory_summary::merge_blocks(doc.sections, blocks);
    lines_are_one_line_each(raw);
    read_document_has_lines(text::lines(raw));
    memory_summary::read_sections_are_sorted(text::lines(raw));
    assert(lined_sections(blocks)) by {
        assert forall|b: int| 0 <= b < blocks.len() implies lined_section(#[trigger] blocks[b]) by {
            let block = blocks[b];
            assert forall|k: int| 0 <= k < block.items.len() implies one_line(
                #[trigger] block.items[k],
            ) by {}
        }
    }
    merging_keeps_lines(doc.sections, blocks);
    let again = memory_summary::existing_document(Some(written));
    memory_summary::read_sections_are_sorted(text::lines(written@));
    assert forall|b: int, k: int|
        0 <= b < blocks.len() && 0 <= k < blocks[b].items.len() implies memory_summary::holds_item(
        memory_summary::section_items(again.sections, blocks[b].topic),
        #[trigger] blocks[b].items[k],
    ) by {
        let topic = blocks[b].topic;
        let item = blocks[b].items[k];
        own_text_is_plain(item);
        memory_summary::merging_holds_every_item(doc.sections, blocks, b, k);
        written_item_is_held(date, doc.preface, merged, topic, item);
        let held = memory_summary::section_items(again.sections, topic);
        let i = choose|i: int| 0 <= i < held.len() && held[i] == item;
        assert(memory_summary::item_text(held[i]) == memory_summary::item_text(item));
    }
    memory_summary::held_blocks_change_nothing(again.sections, blocks);
}

} // verus!
