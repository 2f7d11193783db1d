use std::cmp::Ordering;

use mangalib::dirs::{compare_last_n, sort_lex_by_last_n, LastNPath};
use mangalib::scan::{get_chapters, get_manga, FsEntry};
use mangalib::seriesgetter::{all_pages, MangaImage, SeriesGetter};

fn dir(path: &str) -> FsEntry {
    FsEntry { path: path.to_string(), is_dir: true }
}

fn file(path: &str) -> FsEntry {
    FsEntry { path: path.to_string(), is_dir: false }
}

#[test]
fn natural_order_chapter_numbers() {
    assert_eq!(compare_last_n(1, "s/Chapter 2", "s/Chapter 10"), Ordering::Less);
    assert_eq!(compare_last_n(1, "s/Chapter 10", "s/Chapter 2"), Ordering::Greater);
    assert_eq!(compare_last_n(1, "s/Chapter 2", "t/Chapter 2"), Ordering::Equal);
}

#[test]
fn punctuation_is_ignored() {
    assert_eq!(compare_last_n(1, "a/Ch.2", "b/Ch 2"), Ordering::Equal);
    assert_eq!(compare_last_n(1, "a/Ch.2", "b/Ch 10"), Ordering::Less);
}

#[test]
fn case_folds_in_comparison() {
    assert_eq!(compare_last_n(1, "a/ALPHA", "b/alpha"), Ordering::Equal);
    assert_eq!(compare_last_n(1, "a/ALPHA", "b/beta"), Ordering::Less);
}

#[test]
fn empty_key_orders_first() {
    assert_eq!(compare_last_n(1, "a/!!!", "a/x"), Ordering::Less);
    assert_eq!(compare_last_n(1, "a/!!!", "a/..."), Ordering::Equal);
}

#[test]
fn last_two_segments_form_the_key() {
    // the key concatenates parent and self with no separator
    assert_eq!(compare_last_n(2, "r/src1/Alpha", "r/src1/Beta"), Ordering::Less);
    assert_eq!(compare_last_n(2, "r/local/Alpha", "r/src1/Alpha"), Ordering::Less);
}

#[test]
fn last_n_concatenates_in_original_order() {
    let e = dir("downloads/src1/Alpha");
    assert_eq!(e.last_n(2), "src1Alpha".to_string());
    assert_eq!(e.last_n(1), "Alpha".to_string());
    assert_eq!(e.last_n(9), "downloadssrc1Alpha".to_string());
}

#[test]
fn sort_lex_by_last_n_on_entries() {
    let a = dir("x/Chapter 2");
    let b = dir("y/Chapter 10");
    assert_eq!(sort_lex_by_last_n(1, &a, &b), Ordering::Less);
    assert_eq!(sort_lex_by_last_n(1, &b, &a), Ordering::Greater);
}

#[test]
fn layout_discovery_counts_each_directory_once() {
    // Scenario: both layouts at once, plus noise that must not match
    let entries = vec![
        dir("downloads"),
        dir("downloads/src1"),
        dir("downloads/src1/AlphaSeries"),
        dir("downloads/src1/BetaSeries"),
        dir("local"),
        dir("local/AlphaSeries"),
        file("downloads/src1/notes.txt"),
        dir("downloads/src1/AlphaSeries/Ch 1"),
        dir("other/deep/place/here"),
    ];
    let manga = get_manga(&entries);
    assert_eq!(manga.len(), 3);
    let titles: Vec<&str> = manga.iter().map(|m| m.title.as_str()).collect();
    assert_eq!(titles, vec!["AlphaSeries", "AlphaSeries", "BetaSeries"]);
    assert_eq!(manga[0].path, "local/AlphaSeries");
    assert_eq!(manga[1].path, "downloads/src1/AlphaSeries");
    assert_eq!(manga[2].path, "downloads/src1/BetaSeries");
}

#[test]
fn series_output_is_sorted_by_last_two_segments() {
    let entries = vec![
        dir("downloads/a/Zeta"),
        dir("downloads/b/Alpha"),
        dir("local/Midway"),
    ];
    let manga = get_manga(&entries);
    assert_eq!(manga.len(), 3);
    for i in 0..manga.len() {
        for j in (i + 1)..manga.len() {
            assert_eq!(
                compare_last_n(2, manga[i].path.as_str(), manga[j].path.as_str()),
                Ordering::Less
            );
        }
    }
}

#[test]
fn series_thumb_is_greatest_child() {
    let entries = vec![
        dir("downloads/s/A"),
        dir("downloads/s/A/Ch 1"),
        dir("downloads/s/A/Ch 10"),
        dir("downloads/s/A/Ch 2"),
    ];
    let manga = get_manga(&entries);
    assert_eq!(manga.len(), 1);
    assert_eq!(manga[0].thumb, "downloads/s/A/Ch 10");
}

#[test]
fn series_without_children_gets_empty_thumb() {
    let entries = vec![dir("local/Lone")];
    let manga = get_manga(&entries);
    assert_eq!(manga.len(), 1);
    assert_eq!(manga[0].thumb, "");
}

#[test]
fn empty_root_yields_no_series() {
    let entries: Vec<FsEntry> = Vec::new();
    assert_eq!(get_manga(&entries).len(), 0);
}

#[test]
fn chapters_sort_naturally() {
    let entries = vec![
        dir("downloads/src1/S/Ch 10"),
        dir("downloads/src1/S/Ch 2"),
        dir("downloads/src1/S/Ch 1"),
        dir("downloads/src1/S/Ch 11"),
        dir("downloads/src1/Other/Ch 99"),
    ];
    let chs = get_chapters(&entries, "S");
    let titles: Vec<&str> = chs.iter().map(|c| c.title.as_str()).collect();
    assert_eq!(titles, vec!["Ch 1", "Ch 2", "Ch 10", "Ch 11"]);
    for c in &chs {
        assert_eq!(c.thumb, "/");
    }
}

#[test]
fn chapters_merge_both_layouts() {
    let entries = vec![
        dir("downloads/src1/S/Ch 2"),
        dir("local/S/Ch 1"),
        dir("local/T/Ch 3"),
    ];
    let chs = get_chapters(&entries, "S");
    assert_eq!(chs.len(), 2);
    assert_eq!(chs[0].path, "local/S/Ch 1");
    assert_eq!(chs[1].path, "downloads/src1/S/Ch 2");
}

#[test]
fn chapter_parent_is_the_series() {
    let entries = vec![
        dir("downloads/src1/S/Ch 1"),
        dir("downloads/src1/SS/Ch 2"),
        dir("local/S/Ch 3"),
    ];
    let chs = get_chapters(&entries, "S");
    assert_eq!(chs.len(), 2);
    for c in &chs {
        let parent = c.path.rsplit('/').nth(1).unwrap();
        assert_eq!(parent, "S");
    }
}

#[test]
fn series_name_is_matched_literally() {
    // a name holding glob metacharacters matches nothing else
    let entries = vec![dir("local/S/Ch 1"), dir("local/Sx/Ch 2")];
    assert_eq!(get_chapters(&entries, "S*").len(), 0);
    assert_eq!(get_chapters(&entries, "S").len(), 1);
}

#[test]
fn zero_chapters_mean_empty_results() {
    let entries = vec![dir("local/Other/Ch 1")];
    assert_eq!(get_chapters(&entries, "S").len(), 0);
    assert_eq!(all_pages(&entries, "S").len(), 0);
}

#[test]
fn image_pack_tags_pages_with_chapter_index() {
    let entries = vec![
        dir("local/S/Ch 2"),
        dir("local/S/Ch 1"),
        file("local/S/Ch 1/p1.jpg"),
        file("local/S/Ch 2/p1.jpg"),
        file("local/S/Ch 2/p2.jpg"),
    ];
    let getter = SeriesGetter::from_name("S");
    let pack = getter.get_image_pack(&entries);
    let pages: Vec<(&str, usize)> = pack
        .images
        .iter()
        .map(|m| (m.path.as_str(), m.chapter))
        .collect();
    assert_eq!(
        pages,
        vec![
            ("local/S/Ch 1/p1.jpg", 0),
            ("local/S/Ch 2/p1.jpg", 1),
            ("local/S/Ch 2/p2.jpg", 1),
        ]
    );
}

#[test]
fn raw_pack_keeps_files_without_numbers() {
    let entries = vec![
        dir("local/S/Ch 1"),
        file("local/S/Ch 1/cover.jpg"),
        file("local/S/Ch 1/p1.jpg"),
    ];
    let getter = SeriesGetter::from_name("S");
    let pack = getter.get_image_pack(&entries);
    assert_eq!(pack.count(), 2);
}

#[test]
fn sort_name_synthesis_scenario() {
    let entries = vec![
        dir("local/S/Ch 1"),
        dir("local/S/Ch 2"),
        file("local/S/Ch 1/p1.jpg"),
        file("local/S/Ch 1/p2.jpg"),
        file("local/S/Ch 2/p10.jpg"),
    ];
    let names = all_pages(&entries, "S");
    let got: Vec<&str> = names.iter().map(|s| s.as_str()).collect();
    assert_eq!(got, vec!["0000001.jpg", "0000002.jpg", "0001010.jpg"]);
}

#[test]
fn stem_without_digits_is_omitted_from_projection() {
    let entries = vec![
        dir("local/S/Ch 1"),
        file("local/S/Ch 1/cover.jpg"),
        file("local/S/Ch 1/p1.jpg"),
    ];
    let names = all_pages(&entries, "S");
    let got: Vec<&str> = names.iter().map(|s| s.as_str()).collect();
    assert_eq!(got, vec!["0000001.jpg"]);
}

#[test]
fn file_without_extension_is_omitted_from_projection() {
    let entries = vec![
        dir("local/S/Ch 1"),
        file("local/S/Ch 1/12"),
        file("local/S/Ch 1/p1.jpg"),
    ];
    let names = all_pages(&entries, "S");
    let got: Vec<&str> = names.iter().map(|s| s.as_str()).collect();
    assert_eq!(got, vec!["0000001.jpg"]);
}

#[test]
fn empty_chapter_still_advances_the_index() {
    let entries = vec![
        dir("local/S/Ch 1"),
        dir("local/S/Ch 2"),
        file("local/S/Ch 2/p1.jpg"),
    ];
    let names = all_pages(&entries, "S");
    let got: Vec<&str> = names.iter().map(|s| s.as_str()).collect();
    assert_eq!(got, vec!["0001001.jpg"]);
}

#[test]
fn pagenum_reads_digits_of_the_stem() {
    let img = MangaImage { path: "local/S/Ch 1/p12.png".to_string(), chapter: 0 };
    assert_eq!(img.get_pagenum(), Ok(12));
    let img2 = MangaImage { path: "local/S/Ch 1/0007.png".to_string(), chapter: 0 };
    assert_eq!(img2.get_pagenum(), Ok(7));
}

#[test]
fn pagenum_fails_without_digits() {
    let img = MangaImage { path: "local/S/Ch 1/cover.jpg".to_string(), chapter: 0 };
    assert_eq!(img.get_pagenum(), Err("bad int".to_string()));
}

#[test]
fn pagenum_fails_on_interior_nondigit() {
    // trimming strips the ends only; an inner letter still defeats the parse
    let img = MangaImage { path: "local/S/Ch 1/1a2.jpg".to_string(), chapter: 0 };
    assert_eq!(img.get_pagenum(), Err("bad int".to_string()));
}

#[test]
fn pagenum_fails_on_overflow() {
    let img = MangaImage {
        path: "local/S/Ch 1/99999999999999999999999999.jpg".to_string(),
        chapter: 0,
    };
    assert_eq!(img.get_pagenum(), Err("bad int".to_string()));
}

#[test]
fn lex_sorted_name_exact_format() {
    let img = MangaImage { path: "local/S/Ch 1/p12.png".to_string(), chapter: 3 };
    assert_eq!(img.lex_sorted_name(), Ok("0003012.png".to_string()));
}

#[test]
fn lex_sorted_name_does_not_truncate_wide_values() {
    let img = MangaImage { path: "local/S/Ch 1/p12.jpg".to_string(), chapter: 12345 };
    assert_eq!(img.lex_sorted_name(), Ok("12345012.jpg".to_string()));
}

#[test]
fn lex_sorted_name_reports_missing_extension() {
    let img = MangaImage { path: "local/S/Ch 1/12".to_string(), chapter: 0 };
    assert_eq!(img.lex_sorted_name(), Err("No extension".to_string()));
}

#[test]
fn builder_keeps_the_series_name() {
    let mut g = SeriesGetter::from_name("Alpha");
    g.all_chapters();
    g.chapter_range(1, 3);
    g.chapter_count(5);
    assert_eq!(g.name, "Alpha".to_string());
}

#[test]
fn getter_chapters_match_free_function() {
    let entries = vec![dir("local/S/Ch 1"), dir("local/S/Ch 2")];
    let g = SeriesGetter::from_name("S");
    let a = g.get_chapters(&entries);
    let b = get_chapters(&entries, "S");
    assert_eq!(a.len(), b.len());
    for (x, y) in a.iter().zip(b.iter()) {
        assert_eq!(x.path, y.path);
    }
}

#[test]
fn comparison_agrees_with_lexical_sort_crate() {
    let pairs = [
        ("Chapter 2", "Chapter 10"),
        ("Ch 1", "Ch 2"),
        ("alpha", "Beta"),
        ("a2b", "a10b"),
        ("x 9 y", "x 19 y"),
    ];
    for (a, b) in pairs {
        let expected = lexical_sort::natural_lexical_only_alnum_cmp(a, b);
        let got = compare_last_n(1, &format!("p/{}", a), &format!("p/{}", b));
        assert_eq!(got, expected);
    }
}
