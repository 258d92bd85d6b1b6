use harvest::template::substitute;
use harvest::{render_template as render, FilePath, RenderCtx};

fn ctx<'a>(rel: &'a FilePath) -> RenderCtx<'a> {
    RenderCtx {
        rel,
        project: "Sunset Shoot",
        job_year: 2026,
        job_month: 6,
        job_day: 3,
        file_year: 2025,
        file_month: 11,
        file_day: 9,
    }
}

#[test]
fn dated_folder_with_original_filename() {
    let rel = FilePath::new("DCIM/100CANON/IMG_0042.CR3");
    let out = render("{project}/{YYYY}-{MM}-{DD}/{filename}", &ctx(&rel));
    assert_eq!(out.text, "Sunset Shoot/2026-06-03/IMG_0042.CR3");
}

#[test]
fn file_date_and_parts() {
    let rel = FilePath::new("clip.MOV");
    let out = render("{fYYYY}/{fMM}/{name}.{ext}", &ctx(&rel));
    assert_eq!(out.text, "2025/11/clip.MOV");
}

#[test]
fn unknown_tokens_are_preserved() {
    let rel = FilePath::new("a.txt");
    let out = render("{bogus}/{filename}", &ctx(&rel));
    assert_eq!(out.text, "{bogus}/a.txt");
}

#[test]
fn path_traversal_is_stripped() {
    let rel = FilePath::new("a.txt");
    // A malicious or sloppy template cannot escape the destination root.
    let out = render("../../etc/{filename}", &ctx(&rel));
    assert_eq!(out.text, "etc/a.txt");
}

#[test]
fn every_token_has_its_value() {
    let rel = FilePath::new("DCIM/100/IMG.tar.gz");
    let c = ctx(&rel);
    let cases = [
        ("filename", "IMG.tar.gz"),
        ("name", "IMG.tar"),
        ("ext", "gz"),
        ("reldir", "DCIM/100"),
        ("relpath", "DCIM/100/IMG.tar.gz"),
        ("project", "Sunset Shoot"),
        ("YYYY", "2026"),
        ("YY", "26"),
        ("MM", "06"),
        ("DD", "03"),
        ("fYYYY", "2025"),
        ("fYY", "25"),
        ("fMM", "11"),
        ("fDD", "09"),
    ];
    for (token, value) in cases {
        assert_eq!(c.lookup(token).as_deref(), Some(value), "{token}");
    }
    assert_eq!(c.lookup("yyyy"), None);
    assert_eq!(c.lookup(""), None);
}

#[test]
fn files_without_parts() {
    let bare = FilePath::new("Makefile");
    assert_eq!(ctx(&bare).lookup("ext").as_deref(), Some(""));
    assert_eq!(ctx(&bare).lookup("reldir").as_deref(), Some(""));
    let hidden = FilePath::new(".hidden");
    assert_eq!(ctx(&hidden).lookup("ext").as_deref(), Some(""));
    assert_eq!(ctx(&hidden).lookup("name").as_deref(), Some(".hidden"));
    // A path without a file name leaves the token as it is.
    let up = FilePath::new("..");
    assert_eq!(ctx(&up).lookup("filename"), None);
    assert_eq!(substitute("{filename}!", &ctx(&up)), "{filename}!");
}

#[test]
fn years_are_padded() {
    let rel = FilePath::new("a");
    let mut c = ctx(&rel);
    c.job_year = 7;
    c.file_year = -45;
    assert_eq!(c.lookup("YYYY").as_deref(), Some("0007"));
    assert_eq!(c.lookup("YY").as_deref(), Some("07"));
    assert_eq!(c.lookup("fYYYY").as_deref(), Some("-045"));
    assert_eq!(c.lookup("fYY").as_deref(), Some("45"));
    c.job_year = 12345;
    assert_eq!(c.lookup("YYYY").as_deref(), Some("12345"));
    assert_eq!(c.lookup("YY").as_deref(), Some("45"));
}

#[test]
fn braces_that_do_not_match() {
    let rel = FilePath::new("a.txt");
    let c = ctx(&rel);
    assert_eq!(substitute("x{MM", &c), "x{MM");
    assert_eq!(substitute("x}{MM}y", &c), "x}06y");
    assert_eq!(substitute("{{MM}}", &c), "{{MM}}");
    assert_eq!(substitute("{}{DD}", &c), "{}03");
    assert_eq!(substitute("plain", &c), "plain");
}

#[test]
fn rendered_paths_stay_below_the_root() {
    let rel = FilePath::new("a.txt");
    let mut c = ctx(&rel);
    assert_eq!(render("/etc/{filename}", &c).text, "etc/a.txt");
    assert_eq!(render("a\\..\\b/./ c /", &c).text, "a/b/c");
    assert_eq!(render("..", &c).text, "");
    // A value may hold separators and dots, too.
    c.project = "../../x";
    assert_eq!(render("{project}/{filename}", &c).text, "x/a.txt");
    c.project = " .. ";
    assert_eq!(render("{project}/{filename}", &c).text, "a.txt");
    let root = FilePath::new("/dest");
    assert!(root.join(&render("{project}/../{filename}", &c)).starts_with(&root));
}
