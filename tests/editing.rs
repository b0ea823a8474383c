use hdn::append::addtoarr;
use hdn::edit::{getarrvals, ReadError, WriteError};
use hdn::remove::rmarr;
use hdn::packages::{add, remove, update_nix, UpdateNixError, UpdateNixMode};
use hdn::resolve::{findattr, getcfgbase, getkey, split_path, subtree, Found};
use hdn::syntax::parse;
use hdn::tree::{Kind, Tree};

fn strings(v: &[&str]) -> Vec<String> {
    v.iter().map(|s| s.to_string()).collect()
}

#[test]
fn reads_elements_in_order() {
    let doc = "{ home.packages = [ \"a\" \"b\" ]; }";
    let got = getarrvals(doc, "home.packages").unwrap();
    assert_eq!(got, strings(&["\"a\"", "\"b\""]));
}

#[test]
fn appends_before_trailing_line_break() {
    let doc = "{ home.packages = [\n    pkgs.htop\n  ];\n}";
    let out = addtoarr(doc, "home.packages", strings(&["pkgs.vim"])).unwrap();
    assert_eq!(out, "{ home.packages = [\n    pkgs.htop\n    pkgs.vim\n  ];\n}");
}

#[test]
fn creates_missing_attribute_in_empty_set() {
    let out = addtoarr("{ }", "home.packages", strings(&["pkgs.vim"])).unwrap();
    assert_eq!(out, "{\n  home.packages = [\n    pkgs.vim\n  ]; }");
    assert_eq!(getarrvals(&out, "home.packages").unwrap(), strings(&["pkgs.vim"]));
}

#[test]
fn missing_attribute_is_reported() {
    let doc = "{ programs.git.enable = true; }";
    assert_eq!(getarrvals(doc, "home.packages"), Err(ReadError::NoAttr));
    assert_eq!(rmarr(doc, "home.packages", strings(&["pkgs.vim"])), Err(WriteError::NoAttr));
}

#[test]
fn created_attribute_holds_exactly_the_items() {
    let doc = "{\n  programs.git.enable = true;\n  home.username = \"me\";\n}";
    let items = strings(&["pkgs.ripgrep", "pkgs.fd", "pkgs.ripgrep"]);
    let out = addtoarr(doc, "home.packages", items.clone()).unwrap();
    assert_eq!(getarrvals(&out, "home.packages").unwrap(), items);
    assert!(out.contains("programs.git.enable = true;"));
    assert!(out.contains("home.username = \"me\";"));
    assert_eq!(
        out,
        "{\n  programs.git.enable = true;\n  home.username = \"me\";\n  home.packages = [\n    pkgs.ripgrep\n    pkgs.fd\n    pkgs.ripgrep\n  ];\n}"
    );
}

#[test]
fn new_binding_goes_after_related_binding() {
    let doc = "{\n  home.username = \"me\";\n  programs.git.enable = true;\n}";
    let out = addtoarr(doc, "home.packages", strings(&["pkgs.fd"])).unwrap();
    assert_eq!(
        out,
        "{\n  home.username = \"me\";\n  home.packages = [\n    pkgs.fd\n  ];\n  programs.git.enable = true;\n}"
    );
}

#[test]
fn append_keeps_existing_and_duplicates() {
    let doc = "{ home.packages = [ pkgs.a ]; }";
    let out = addtoarr(doc, "home.packages", strings(&["pkgs.a", "pkgs.b"])).unwrap();
    assert_eq!(out, "{ home.packages = [ pkgs.a \n    pkgs.a\n    pkgs.b]; }");
    assert_eq!(getarrvals(&out, "home.packages").unwrap(), strings(&["pkgs.a", "pkgs.a", "pkgs.b"]));
}

#[test]
fn remove_drops_every_match_and_its_line() {
    let doc = "{ home.packages = [\n    a\n    b\n    a\n    c\n  ]; }";
    let out = rmarr(doc, "home.packages", strings(&["a", "c"])).unwrap();
    assert_eq!(out, "{ home.packages = [\n    b\n  ]; }");
    assert_eq!(getarrvals(&out, "home.packages").unwrap(), strings(&["b"]));
}

#[test]
fn remove_of_absent_items_changes_nothing() {
    let doc = "# config\n{ pkgs, ... }:\n{\n  home.packages = with pkgs; [\n    git # vcs\n    vim\n  ];\n}\n";
    let out = rmarr(doc, "home.packages", strings(&["emacs"])).unwrap();
    assert_eq!(out, doc);
}

#[test]
fn parse_then_print_is_identity() {
    for text in [
        "",
        "{ }",
        "{ a = 1; /* c */ b = [ 1 2 ]; }\n",
        "{ broken = [ 1 2 ",
        "let x = 1; in { y = x; }",
        "\u{e9}t\u{e9} = \"\u{fc}\";",
    ] {
        let t = parse(text);
        assert_eq!(t.to_text(), text);
    }
}

#[test]
fn parse_tells_kinds_apart() {
    let t = parse("{ a.b = [ x ]; }");
    match &t {
        Tree::Node(Kind::Root, cs) => match &cs[0] {
            Tree::Node(Kind::AttrSet, inner) => {
                assert!(inner.iter().any(|c| matches!(c, Tree::Node(Kind::Binding, _))));
            }
            other => panic!("unexpected {:?}", other),
        },
        other => panic!("unexpected {:?}", other),
    }
}

#[test]
fn with_scope_is_looked_through() {
    let doc = "{ pkgs, ... }: { home.packages = with pkgs; [ vim git ]; }";
    assert_eq!(getarrvals(doc, "home.packages").unwrap(), strings(&["vim", "git"]));
}

#[test]
fn nested_set_is_searched() {
    let doc = "{ home = { username = \"me\"; packages = [ a b ]; }; }";
    assert_eq!(getarrvals(doc, "home.packages").unwrap(), strings(&["a", "b"]));
    let out = addtoarr(doc, "home.packages", strings(&["c"])).unwrap();
    assert_eq!(getarrvals(&out, "home.packages").unwrap(), strings(&["a", "b", "c"]));
    assert!(out.starts_with("{ home = { username = \"me\"; packages = [ a b"));
}

#[test]
fn non_list_value_is_an_array_error() {
    let doc = "{ home.packages = 5; }";
    assert_eq!(getarrvals(doc, "home.packages"), Err(ReadError::ArrayError));
    assert_eq!(addtoarr(doc, "home.packages", strings(&["a"])), Err(WriteError::ArrayError));
    assert_eq!(rmarr(doc, "home.packages", strings(&["a"])), Err(WriteError::ArrayError));
}

#[test]
fn document_without_set_is_a_parse_error() {
    assert_eq!(getarrvals("42", "home.packages"), Err(ReadError::ParseError));
    assert_eq!(addtoarr("42", "home.packages", strings(&["a"])), Err(WriteError::ParseError));
    assert_eq!(rmarr("42", "home.packages", strings(&["a"])), Err(WriteError::ParseError));
}

#[test]
fn scattered_bindings_are_gathered() {
    let t = parse("{ a.b.c = 1; a.b.d = 2; }");
    let base = getcfgbase(&t).unwrap();
    let set = subtree(&t, &base).unwrap();
    match findattr(set, "a.b").unwrap() {
        Found::Made(frag, path) => {
            assert_eq!(frag.to_text(), "{ a.b = {\n  c = 1;\n  d = 2;\n}; }");
            assert_eq!(path, vec![0, 2]);
        }
        other => panic!("unexpected {:?}", other),
    }
}

#[test]
fn single_scattered_binding_renders_on_one_line() {
    let t = parse("{ a.b.c = [ x ]; }");
    let base = getcfgbase(&t).unwrap();
    let set = subtree(&t, &base).unwrap();
    match findattr(set, "a.b").unwrap() {
        Found::Made(frag, _) => assert_eq!(frag.to_text(), "{a.b = { c = [ x ]; }; }"),
        other => panic!("unexpected {:?}", other),
    }
}

#[test]
fn nested_set_members_are_gathered() {
    let t = parse("{ a = { b = 1; c = 2; }; }");
    let base = getcfgbase(&t).unwrap();
    let set = subtree(&t, &base).unwrap();
    match findattr(set, "a").unwrap() {
        Found::Made(frag, _) => assert_eq!(frag.to_text(), "{ a = {\n  b = 1;\n  c = 2;\n}; }"),
        other => panic!("unexpected {:?}", other),
    }
}

#[test]
fn exact_binding_is_found_in_place() {
    let t = parse("{ x = 1; home.packages = [ ]; }");
    let base = getcfgbase(&t).unwrap();
    assert_eq!(base, vec![0]);
    let set = subtree(&t, &base).unwrap();
    match findattr(set, "home.packages").unwrap() {
        Found::At(p) => {
            let b = subtree(set, &p).unwrap();
            assert_eq!(b.to_text(), "home.packages = [ ];");
        }
        other => panic!("unexpected {:?}", other),
    }
    assert!(findattr(set, "home.files").is_none());
}

#[test]
fn key_segments_are_verbatim() {
    let t = parse("{ home.\"my.file\" = 1; }");
    let base = getcfgbase(&t).unwrap();
    let set = subtree(&t, &base).unwrap();
    let Tree::Node(_, cs) = set else { panic!("not a node") };
    let binding = cs.iter().find(|c| matches!(c, Tree::Node(Kind::Binding, _))).unwrap();
    let Tree::Node(_, bcs) = binding else { panic!("not a node") };
    let path = bcs.iter().find(|c| matches!(c, Tree::Node(Kind::AttrPath, _))).unwrap();
    assert_eq!(getkey(path), strings(&["home", "\"my.file\""]));
}

#[test]
fn dotted_path_splits_at_every_dot() {
    assert_eq!(split_path("home.packages"), strings(&["home", "packages"]));
    assert_eq!(split_path("a..b."), strings(&["a", "", "b", ""]));
    assert_eq!(split_path(""), strings(&[""]));
}

#[test]
fn add_skips_listed_and_repeated_packages() {
    let doc = "{\n  home.packages = [\n    a\n  ];\n}";
    let out = add(doc, &strings(&["b", "a", "b"])).unwrap();
    assert_eq!(out, "{\n  home.packages = [\n    a\n    b\n  ];\n}");
}

#[test]
fn add_with_nothing_new_leaves_text_alone() {
    let doc = "{\n  home.packages = [\n    a\n  ];\n}";
    assert_eq!(add(doc, &strings(&["a", "a"])).unwrap(), doc);
}

#[test]
fn remove_only_touches_listed_packages() {
    let doc = "{\n  home.packages = [\n    a\n    b\n  ];\n}";
    let out = remove(doc, &strings(&["a", "c"])).unwrap();
    assert_eq!(out, "{\n  home.packages = [\n    b\n  ];\n}");
}

#[test]
fn update_reports_read_failure() {
    let doc = "{ }";
    assert_eq!(
        update_nix(doc, &strings(&["a"]), UpdateNixMode::Add),
        Err(UpdateNixError::CouldNotReadNix(ReadError::NoAttr))
    );
    assert_eq!(
        update_nix("{ home.packages = [ ]; }", &strings(&["a"]), UpdateNixMode::Remove).unwrap(),
        "{ home.packages = [ ]; }"
    );
}

#[test]
fn unrelated_binding_goes_after_the_last_one() {
    let out = addtoarr("{a=1;}", "home.packages", strings(&["pkgs.vim"])).unwrap();
    assert_eq!(out, "{a=1;\n  home.packages = [\n    pkgs.vim\n  ];}");
    let out = addtoarr("{ a = 1;\n}", "home.packages", strings(&["pkgs.vim"])).unwrap();
    assert_eq!(out, "{ a = 1;\n  home.packages = [\n    pkgs.vim\n  ];\n}");
}

#[test]
fn synthesized_binding_holds_no_list() {
    let doc = "{ home.packages.a = [ x ]; home.packages.b = [ y ]; }";
    assert_eq!(getarrvals(doc, "home.packages"), Err(ReadError::ArrayError));
    assert_eq!(addtoarr(doc, "home.packages", strings(&["z"])), Err(WriteError::ArrayError));
    assert_eq!(rmarr(doc, "home.packages", strings(&["x"])), Err(WriteError::ArrayError));
}

#[test]
fn empty_edits_give_the_document_back() {
    let doc = "{\n  # tools\n  home.packages = [ a b ];  \n}\n";
    assert_eq!(addtoarr(doc, "home.packages", Vec::new()).unwrap(), doc);
    assert_eq!(rmarr(doc, "home.packages", Vec::new()).unwrap(), doc);
}
