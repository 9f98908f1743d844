//! The page structure of an edited PDF: pages numbered from 1 in order, and the page
//! operations that keep that numbering.
use vstd::prelude::*;

use crate::text::{ascii_lowercase, ascii_lowercase_vec, chars_of, decimal, push_decimal, same_chars, string_of};

verus! {

/// How an embedded image is encoded.
#[derive(Clone, Copy, Debug, PartialEq, Eq, Structural)]
pub enum ImageFormat {
    Jpeg,
    Png,
}

/// The image format that a format name stands for, letter case ignored: `png`, or `jpeg`
/// and `jpg`.
pub open spec fn format_named(name: Seq<char>) -> Option<ImageFormat> {
    let n = ascii_lowercase(name);
    if n == "png"@ {
        Some(ImageFormat::Png)
    } else if n == "jpeg"@ || n == "jpg"@ {
        Some(ImageFormat::Jpeg)
    } else {
        None
    }
}

/// The image format named `format` (see [`format_named`]); `None` for any other name.
pub fn image_format_from_name(format: &str) -> (r: Option<ImageFormat>)
    ensures
        r == format_named(format@),
{
    let n = ascii_lowercase_vec(&chars_of(format));
    let png = chars_of("png");
    let jpeg = chars_of("jpeg");
    let jpg = chars_of("jpg");
    if same_chars(&n, &png) {
        Some(ImageFormat::Png)
    } else if same_chars(&n, &jpeg) || same_chars(&n, &jpg) {
        Some(ImageFormat::Jpeg)
    } else {
        None
    }
}

/// Document information of a PDF.
#[derive(Clone, Debug)]
pub struct PdfMetadata {
    pub title: Option<String>,
    pub author: Option<String>,
    pub subject: Option<String>,
    pub creator: Option<String>,
    pub producer: Option<String>,
    pub creation_date: Option<String>,
    pub modification_date: Option<String>,
}

impl Default for PdfMetadata {
    fn default() -> (m: Self)
        ensures
            m.title is None,
            m.author is None,
            m.subject is None,
            m.creator is None,
            m.producer is None,
            m.creation_date is None,
            m.modification_date is None,
    {
        PdfMetadata {
            title: None,
            author: None,
            subject: None,
            creator: None,
            producer: None,
            creation_date: None,
            modification_date: None,
        }
    }
}

/// A page: its number in the document (from 1), the number it had in the file it was
/// loaded from, and what is drawn on it.
#[derive(Clone, Debug)]
pub struct Page<C> {
    pub page_number: u32,
    pub source_page_number: Option<u32>,
    pub content: C,
}

/// A document: its pages in order, its metadata and the file it belongs to.
#[derive(Clone, Debug)]
pub struct PdfStructure<C> {
    pub pages: Vec<Page<C>>,
    pub metadata: PdfMetadata,
    pub file_path: String,
}

/// Why a page operation was refused.
#[derive(Clone, Copy, Debug, PartialEq, Eq, Structural)]
pub enum PageEditError {
    /// The page number is not that of a page (or, when adding, of the place after the last).
    InvalidPageNumber(u32),
    /// The new page's width or height is not positive.
    InvalidPageSize,
    /// The only page cannot be deleted.
    LastPage,
    /// One of the positions of a move is not that of a page.
    InvalidPageIndex(u32, u32),
}

/// Every page carries its position, counted from 1.
pub open spec fn numbered<C>(pages: Seq<Page<C>>) -> bool {
    forall|i: int| 0 <= i < pages.len() ==> #[trigger] pages[i].page_number == i + 1
}

/// `pages` with new numbers and nothing else changed.
pub open spec fn same_pages_renumbered<C>(old: Seq<Page<C>>, new: Seq<Page<C>>) -> bool {
    &&& new.len() == old.len()
    &&& numbered(new)
    &&& forall|i: int| #![trigger new[i]] 0 <= i < old.len() ==> new[i].content == old[i].content
        && new[i].source_page_number == old[i].source_page_number
}

/// The message for a page numbered `actual` at the place of page `expected`.
pub open spec fn page_number_message(expected: u32, actual: u32) -> Seq<char> {
    "ページ番号が不正です: 期待値 "@ + decimal(expected as nat) + ", 実際の値 "@ + decimal(actual as nat)
}

impl<C> PdfStructure<C> {
    /// Numbers the pages 1, 2, ... in their order.
    pub fn renumber_pages(&mut self)
        requires
            old(self).pages.len() <= u32::MAX,
        ensures
            same_pages_renumbered(old(self).pages@, final(self).pages@),
            final(self).metadata == old(self).metadata,
            final(self).file_path == old(self).file_path,
    {
        let mut rest: Vec<Page<C>> = Vec::new();
        std::mem::swap(&mut rest, &mut self.pages);
        let ghost orig = rest@;
        let mut out: Vec<Page<C>> = Vec::new();
        let mut k: usize = 0;
        while rest.len() > 0
            invariant
                orig == old(self).pages@,
                self.metadata == old(self).metadata,
                self.file_path == old(self).file_path,
                k + rest.len() == orig.len() <= u32::MAX,
                rest@ == orig.skip(k as int),
                out.len() == k,
                forall|j: int| #![trigger out@[j]] 0 <= j < k ==> out@[j].page_number == j + 1
                    && out@[j].content == orig[j].content
                    && out@[j].source_page_number == orig[j].source_page_number,
            decreases rest.len(),
        {
            let mut p = rest.remove(0);
            assert(p == orig[k as int]);
            assert(rest@ =~= orig.skip(k + 1));
            p.page_number = (k + 1) as u32;
            out.push(p);
            k += 1;
        }
        self.pages = out;
    }

    /// Checks that each page carries its position as its number; the error names the
    /// first page that does not.
    pub fn validate_page_numbers(&self) -> (r: Result<(), String>)
        requires
            self.pages.len() <= u32::MAX,
        ensures
            r is Ok <==> numbered(self.pages@),
            r matches Err(m) ==> exists|i: int|
                0 <= i < self.pages@.len() && self.pages@[i].page_number != i + 1 && (forall|j: int|
                    0 <= j < i ==> #[trigger] self.pages@[j].page_number == j + 1) && m@
                    == page_number_message((i + 1) as u32, self.pages@[i].page_number),
    {
        if self.pages.len() == 0 {
            return Ok(());
        }
        let mut i: usize = 0;
        while i < self.pages.len()
            invariant
                i <= self.pages.len() <= u32::MAX,
                forall|j: int| 0 <= j < i ==> #[trigger] self.pages@[j].page_number == j + 1,
            decreases self.pages.len() - i,
        {
            let expected = (i + 1) as u32;
            if self.pages[i].page_number != expected {
                let mut m: Vec<char> = Vec::new();
                crate::text::extend_vec(&mut m, &crate::text::chars_of("ページ番号が不正です: 期待値 "));
                push_decimal(&mut m, expected as u64);
                crate::text::extend_vec(&mut m, &crate::text::chars_of(", 実際の値 "));
                push_decimal(&mut m, self.pages[i].page_number as u64);
                return Err(string_of(&m));
            }
            i += 1;
        }
        Ok(())
    }
}

/// The pages after inserting `p` at position `at` (from 0) and numbering them anew.
pub open spec fn pages_added<C>(old: Seq<Page<C>>, new: Seq<Page<C>>, at: int, content: C) -> bool {
    &&& new.len() == old.len() + 1
    &&& numbered(new)
    &&& new[at].content == content
    &&& new[at].source_page_number is None
    &&& forall|i: int| #![trigger new[i]] 0 <= i < at ==> new[i].content == old[i].content
        && new[i].source_page_number == old[i].source_page_number
    &&& forall|i: int| #![trigger new[i]] at < i < new.len() ==> new[i].content == old[i - 1].content
        && new[i].source_page_number == old[i - 1].source_page_number
}

/// Inserts a new page, holding `content`, so that it becomes page `page_number`; the
/// pages are numbered anew. Refused when `page_number` is 0 or past the page after the
/// last, and then when the new page's size is not positive (`size_is_valid` false).
pub fn add_page<C>(pdf_structure: PdfStructure<C>, page_number: u32, content: C, size_is_valid: bool) -> (r: Result<PdfStructure<C>, PageEditError>)
    requires
        pdf_structure.pages.len() < u32::MAX,
    ensures
        page_number == 0 || page_number > pdf_structure.pages.len() + 1 ==> r == Err::<PdfStructure<C>, PageEditError>(PageEditError::InvalidPageNumber(page_number)),
        1 <= page_number <= pdf_structure.pages.len() + 1 && !size_is_valid ==> r == Err::<PdfStructure<C>, PageEditError>(PageEditError::InvalidPageSize),
        1 <= page_number <= pdf_structure.pages.len() + 1 && size_is_valid ==> r is Ok,
        r matches Ok(pdf) ==> pages_added(pdf_structure.pages@, pdf.pages@, page_number - 1, content)
            && pdf.metadata == pdf_structure.metadata && pdf.file_path == pdf_structure.file_path,
{
    let mut pdf = pdf_structure;
    if page_number == 0 || page_number > pdf.pages.len() as u32 + 1 {
        return Err(PageEditError::InvalidPageNumber(page_number));
    }
    if !size_is_valid {
        return Err(PageEditError::InvalidPageSize);
    }
    let ghost before = pdf.pages@;
    let new_page = Page { page_number, source_page_number: None, content };
    let insert_index = (page_number - 1) as usize;
    pdf.pages.insert(insert_index, new_page);
    let ghost inserted = pdf.pages@;
    assert(inserted == before.insert(insert_index as int, new_page));
    pdf.renumber_pages();
    proof {
        assert forall|i: int| #![trigger pdf.pages@[i]] 0 <= i < insert_index implies pdf.pages@[i].content == before[i].content
            && pdf.pages@[i].source_page_number == before[i].source_page_number by {
            assert(inserted[i] == before[i]);
        }
        assert forall|i: int| #![trigger pdf.pages@[i]] insert_index < i < pdf.pages@.len() implies pdf.pages@[i].content == before[i - 1].content
            && pdf.pages@[i].source_page_number == before[i - 1].source_page_number by {
            assert(inserted[i] == before[i - 1]);
        }
        assert(inserted[insert_index as int] == new_page);
    }
    Ok(pdf)
}

/// Deletes page `page_number`; the pages are numbered anew. Refused when `page_number` is
/// not that of a page, and then when it is the only page.
pub fn delete_page<C>(pdf_structure: PdfStructure<C>, page_number: u32) -> (r: Result<PdfStructure<C>, PageEditError>)
    requires
        pdf_structure.pages.len() <= u32::MAX,
    ensures
        page_number == 0 || page_number > pdf_structure.pages.len() ==> r == Err::<PdfStructure<C>, PageEditError>(PageEditError::InvalidPageNumber(page_number)),
        1 <= page_number <= pdf_structure.pages.len() && pdf_structure.pages.len() <= 1 ==> r == Err::<PdfStructure<C>, PageEditError>(PageEditError::LastPage),
        1 <= page_number <= pdf_structure.pages.len() && pdf_structure.pages.len() > 1 ==> r is Ok,
        r matches Ok(pdf) ==> same_pages_renumbered(pdf_structure.pages@.remove(page_number - 1), pdf.pages@)
            && pdf.metadata == pdf_structure.metadata && pdf.file_path == pdf_structure.file_path,
{
    let mut pdf = pdf_structure;
    if page_number == 0 || page_number > pdf.pages.len() as u32 {
        return Err(PageEditError::InvalidPageNumber(page_number));
    }
    if pdf.pages.len() <= 1 {
        return Err(PageEditError::LastPage);
    }
    let remove_index = (page_number - 1) as usize;
    pdf.pages.remove(remove_index);
    pdf.renumber_pages();
    Ok(pdf)
}

/// `s` with the element at `from` taken out and put back at `to`.
pub open spec fn moved<T>(s: Seq<T>, from: int, to: int) -> Seq<T> {
    s.remove(from).insert(to, s[from])
}

/// Moves the page at position `from_index` (from 1) so that it comes before the page that
/// was at `to_index` when moving up, or at `to_index` when moving down; the pages are
/// numbered anew. Moving a page onto itself leaves the document as it is. Refused when a
/// position is not that of a page.
pub fn reorder_pages<C>(pdf_structure: PdfStructure<C>, from_index: u32, to_index: u32) -> (r: Result<PdfStructure<C>, PageEditError>)
    requires
        pdf_structure.pages.len() <= u32::MAX,
    ensures
        from_index == 0 || from_index > pdf_structure.pages.len() || to_index == 0 || to_index > pdf_structure.pages.len()
            ==> r == Err::<PdfStructure<C>, PageEditError>(PageEditError::InvalidPageIndex(from_index, to_index)),
        1 <= from_index <= pdf_structure.pages.len() && 1 <= to_index <= pdf_structure.pages.len() ==> r is Ok,
        r matches Ok(pdf) ==> (from_index == to_index ==> pdf == pdf_structure),
        r matches Ok(pdf) ==> (from_index != to_index ==> same_pages_renumbered(
            moved(
                pdf_structure.pages@,
                from_index - 1,
                if from_index < to_index { to_index - 2 } else { to_index - 1 },
            ),
            pdf.pages@,
        ) && pdf.metadata == pdf_structure.metadata && pdf.file_path == pdf_structure.file_path),
{
    let mut pdf = pdf_structure;
    let page_count = pdf.pages.len() as u32;
    if from_index == 0 || from_index > page_count || to_index == 0 || to_index > page_count {
        return Err(PageEditError::InvalidPageIndex(from_index, to_index));
    }
    if from_index == to_index {
        return Ok(pdf);
    }
    let ghost before = pdf.pages@;
    let from_idx = (from_index - 1) as usize;
    let to_idx = (to_index - 1) as usize;
    let page = pdf.pages.remove(from_idx);
    let adjusted_to_idx = if from_idx < to_idx { to_idx - 1 } else { to_idx };
    pdf.pages.insert(adjusted_to_idx, page);
    assert(pdf.pages@ =~= moved(before, from_idx as int, adjusted_to_idx as int));
    pdf.renumber_pages();
    Ok(pdf)
}

} // verus!

verus! {

/// Pages that were numbered anew pass the numbering check: `renumber_pages` followed by
/// `validate_page_numbers` gives `Ok`.
pub proof fn law_renumbered_pages_validate<C>(old: Seq<Page<C>>, new: Seq<Page<C>>)
    requires
        same_pages_renumbered(old, new),
    ensures
        numbered(new),
{
}

/// Moving a page neither adds nor drops a page: the moved pages are the same pages.
pub proof fn law_move_keeps_pages<T>(s: Seq<T>, from: int, to: int)
    requires
        0 <= from < s.len(),
        0 <= to < s.len(),
    ensures
        moved(s, from, to).to_multiset() == s.to_multiset(),
        moved(s, from, to).len() == s.len(),
        moved(s, from, to)[to] == s[from],
{
    broadcast use vstd::multiset::group_multiset_axioms;

    let r = s.remove(from);
    let x = s[from];
    vstd::seq_lib::to_multiset_remove(s, from);
    vstd::seq_lib::to_multiset_insert(r, to, x);
    assert(s.contains(x));
    vstd::seq_lib::to_multiset_contains(s, x);
    assert(s.to_multiset().remove(x).insert(x) =~= s.to_multiset());
}

/// Deleting the page that was just added gives back the pages there were (numbered from
/// 1; the very same pages when they were numbered so before).
pub proof fn law_delete_undoes_add<C>(old: Seq<Page<C>>, mid: Seq<Page<C>>, new: Seq<Page<C>>, at: int, content: C)
    requires
        0 <= at <= old.len(),
        pages_added(old, mid, at, content),
        same_pages_renumbered(mid.remove(at), new),
    ensures
        new.len() == old.len(),
        numbered(new),
        forall|i: int| #![trigger new[i]] 0 <= i < old.len() ==> new[i].content == old[i].content
            && new[i].source_page_number == old[i].source_page_number,
        numbered(old) ==> forall|i: int| 0 <= i < old.len() ==> #[trigger] new[i] == old[i],
{
    assert forall|i: int| #![trigger new[i]] 0 <= i < old.len() implies new[i].content == old[i].content
        && new[i].source_page_number == old[i].source_page_number by {
        assert(new[i].content == mid.remove(at)[i].content);
        if i < at {
            assert(mid.remove(at)[i] == mid[i]);
        } else {
            assert(mid.remove(at)[i] == mid[i + 1]);
        }
    }
    assert forall|i: int| numbered(old) && 0 <= i < old.len() implies #[trigger] new[i] == old[i] by {
        assert(new[i].page_number == i + 1);
        assert(old[i].page_number == i + 1);
        assert(new[i].content == mid.remove(at)[i].content);
        if i < at {
            assert(mid.remove(at)[i] == mid[i]);
            assert(mid[i].content == old[i].content);
        } else {
            assert(mid.remove(at)[i] == mid[i + 1]);
            assert(mid[i + 1].content == old[i].content);
        }
    }
}

/// Numbering pages that are already numbered changes nothing: a second renumbering gives
/// the pages of the first.
pub proof fn law_renumber_twice<C>(old: Seq<Page<C>>, once: Seq<Page<C>>, twice: Seq<Page<C>>)
    requires
        same_pages_renumbered(old, once),
        same_pages_renumbered(once, twice),
    ensures
        twice == once,
{
    assert forall|i: int| 0 <= i < once.len() implies #[trigger] twice[i] == once[i] by {
        assert(twice[i].page_number == i + 1 && once[i].page_number == i + 1);
    }
    assert(twice =~= once);
}

/// The position of the first element, page by page, whose id is `id`.
pub open spec fn first_with_id(ids: Seq<Seq<Seq<char>>>, id: Seq<char>) -> Option<(int, int)>
    decreases ids.len(),
{
    if ids.len() == 0 {
        None
    } else {
        match first_with_id(ids.drop_last(), id) {
            Some(p) => Some(p),
            None => match ids.last().index_of_first(id) {
                Some(k) => Some((ids.len() - 1, k)),
                None => None,
            },
        }
    }
}

proof fn lemma_first_with_id_prefix(ids: Seq<Seq<Seq<char>>>, id: Seq<char>, n: int)
    requires
        0 <= n <= ids.len(),
        first_with_id(ids.take(n), id) is Some,
    ensures
        first_with_id(ids, id) == first_with_id(ids.take(n), id),
    decreases ids.len(),
{
    if ids.len() > n {
        assert(ids.drop_last().take(n) =~= ids.take(n));
        lemma_first_with_id_prefix(ids.drop_last(), id, n);
    } else {
        assert(ids.take(n) =~= ids);
    }
}

pub open spec fn ids_view(ids: Seq<Vec<String>>) -> Seq<Seq<Seq<char>>> {
    ids.map_values(|p: Vec<String>| p@.map_values(|x: String| x@))
}

/// Finds the element with id `id`: `ids[p]` holds the ids on page `p`, in order; the result
/// is the page and the place on it of the first match, pages taken in order.
pub fn find_element(ids: &Vec<Vec<String>>, id: &str) -> (r: Option<(usize, usize)>)
    ensures
        match first_with_id(ids_view(ids@), id@) {
            Some((p, k)) => r == Some((p as usize, k as usize)),
            None => r is None,
        },
{
    let ghost iv = ids_view(ids@);
    let mut p: usize = 0;
    while p < ids.len()
        invariant
            p <= ids.len(),
            iv == ids_view(ids@),
            first_with_id(iv.take(p as int), id@) is None,
        decreases ids.len() - p,
    {
        assert(iv.take(p + 1).drop_last() =~= iv.take(p as int));
        assert(iv.take(p + 1).last() == iv[p as int]);
        let page = &ids[p];
        let ghost pv = iv[p as int];
        assert(pv =~= page@.map_values(|x: String| x@));
        let mut k: usize = 0;
        while k < page.len()
            invariant
                k <= page.len(),
                p < ids.len(),
                iv == ids_view(ids@),
                pv == iv[p as int],
                pv == page@.map_values(|x: String| x@),
                first_with_id(iv.take(p as int), id@) is None,
                iv.take(p + 1).drop_last() == iv.take(p as int),
                iv.take(p + 1).last() == pv,
                forall|j: int| 0 <= j < k ==> pv[j] != id@,
            decreases page.len() - k,
        {
            if crate::text::same_chars(&chars_of(page[k].as_str()), &chars_of(id)) {
                proof {
                    pv.index_of_first_ensures(id@);
                    assert(pv[k as int] == id@);
                    assert(pv.contains(id@));
                    let f = pv.index_of_first(id@)->0;
                    assert(f == k);
                    assert(first_with_id(iv.take(p + 1), id@) == Some((p as int, k as int)));
                    lemma_first_with_id_prefix(iv, id@, p + 1);
                }
                return Some((p, k));
            }
            k += 1;
        }
        proof {
            pv.index_of_first_ensures(id@);
            if pv.contains(id@) {
                let j = choose|j: int| 0 <= j < pv.len() && pv[j] == id@;
                assert(pv[j] == id@);
            }
        }
        p += 1;
    }
    assert(iv.take(ids.len() as int) =~= iv);
    None
}

/// The number of lines of a text as `str::lines` counts them: the line feeds, and one more
/// when the text does not end with one (no line for an empty text).
pub open spec fn line_count(s: Seq<char>) -> nat
    decreases s.len(),
{
    if s.len() == 0 {
        0
    } else if s.len() == 1 {
        1
    } else {
        line_count(s.drop_last()) + if s[s.len() - 2] == '\n' { 1nat } else { 0nat }
    }
}

/// The number of lines of `text` (see [`line_count`]).
pub fn text_line_count(text: &str) -> (n: usize)
    ensures
        n == line_count(text@),
{
    let cs = chars_of(text);
    let mut n: usize = 0;
    let mut i: usize = 0;
    while i < cs.len()
        invariant
            i <= cs.len(),
            cs@ == text@,
            n == line_count(cs@.take(i as int)),
            n <= i,
        decreases cs.len() - i,
    {
        assert(cs@.take(i + 1).drop_last() =~= cs@.take(i as int));
        if i == 0 || cs[i - 1] == '\n' {
            n += 1;
        }
        i += 1;
    }
    assert(cs@.take(cs.len() as int) =~= cs@);
    n
}

} // verus!
