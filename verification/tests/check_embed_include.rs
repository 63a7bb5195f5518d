use veryl_analysis::analyzer_error::AnalyzerError;
use veryl_analysis::check_embed_include::{
    strip_file_scheme, CheckEmbedInclude, EmbedDeclaration, HandlerPoint, IncludeDeclaration,
    IncludeRequest,
};
use veryl_analysis::symbol::{PathId, Token, TokenSource};

fn token(text: &str, column: u32) -> Token {
    Token {
        text: text.to_string(),
        line: 4,
        column,
        source: TokenSource::File { path: PathId(6) },
    }
}

fn embed(way: &str, lang: &str) -> EmbedDeclaration {
    EmbedDeclaration { way: token(way, 1), lang: token(lang, 9) }
}

fn file(way: &str, literal: &str) -> IncludeDeclaration {
    IncludeDeclaration { way: token(way, 1), string_literal: token(literal, 9) }
}

fn unknown_way(way: &str) -> AnalyzerError {
    AnalyzerError::UnknownEmbedWay { way: way.to_string(), token: token(way, 1) }
}

fn unknown_lang(lang: &str) -> AnalyzerError {
    AnalyzerError::UnknownEmbedLang { lang: lang.to_string(), token: token(lang, 9) }
}

fn invalid(way: &str, lang: &str) -> AnalyzerError {
    AnalyzerError::InvalidEmbed {
        way: way.to_string(),
        lang: lang.to_string(),
        token: token(way, 1),
    }
}

#[test]
fn known_embeds_are_accepted_outside_a_component() {
    let mut check = CheckEmbedInclude::new();
    for way in ["inline", "cocotb"] {
        for lang in ["sv", "py"] {
            check.embed_declaration(&embed(way, lang));
        }
    }
    assert!(check.errors.is_empty());
}

#[test]
fn unknown_ways_and_languages_are_reported() {
    let mut check = CheckEmbedInclude::default();
    check.embed_declaration(&embed("Inline", "sv"));
    check.embed_declaration(&embed("inline", "c"));
    check.embed_declaration(&embed("", "vhdl"));
    assert_eq!(
        check.errors,
        [unknown_way("Inline"), unknown_lang("c"), unknown_way(""), unknown_lang("vhdl")]
    );
}

#[test]
fn a_component_takes_inline_system_verilog_only() {
    let mut check = CheckEmbedInclude::new();
    check.set_point(HandlerPoint::Before);
    check.module_declaration();
    check.embed_declaration(&embed("inline", "sv"));
    assert!(check.errors.is_empty());
    check.embed_declaration(&embed("inline", "py"));
    check.embed_declaration(&embed("cocotb", "sv"));
    check.embed_declaration(&embed("other", "c"));
    assert_eq!(
        check.errors,
        [
            invalid("inline", "py"),
            invalid("cocotb", "sv"),
            unknown_way("other"),
            unknown_lang("c"),
            invalid("other", "c"),
        ]
    );
}

#[test]
fn a_component_is_left_again() {
    for component in 0..3 {
        let mut check = CheckEmbedInclude::new();
        for point in [HandlerPoint::Before, HandlerPoint::After] {
            check.set_point(point);
            match component {
                0 => check.module_declaration(),
                1 => check.interface_declaration(),
                _ => check.package_declaration(),
            }
            check.set_point(HandlerPoint::Before);
            check.embed_declaration(&embed("inline", "py"));
        }
        assert_eq!(check.errors, [invalid("inline", "py")]);
    }
}

#[test]
fn nothing_is_checked_when_a_declaration_is_left() {
    let mut check = CheckEmbedInclude::new();
    check.set_point(HandlerPoint::After);
    check.embed_declaration(&embed("other", "c"));
    assert_eq!(check.include_declaration(&file("other", "not quoted")), None);
    assert!(check.errors.is_empty());
}

#[test]
fn a_file_is_asked_for_without_its_quotes() {
    let mut check = CheckEmbedInclude::new();
    assert_eq!(
        check.include_declaration(&file("inline", "\"dir/é.sv\"")),
        Some(IncludeRequest { source: PathId(6), path: "dir/é.sv".to_string() })
    );
    assert_eq!(
        check.include_declaration(&file("cocotb", "\"\"")),
        Some(IncludeRequest { source: PathId(6), path: "".to_string() })
    );
    assert!(check.errors.is_empty());
}

#[test]
fn an_unknown_way_is_reported_and_the_file_read_all_the_same() {
    let mut check = CheckEmbedInclude::new();
    let declaration = file("other", "\"a.sv\"");
    assert_eq!(
        check.include_declaration(&declaration),
        Some(IncludeRequest { source: PathId(6), path: "a.sv".to_string() })
    );
    check.include_outcome(&declaration, "/src/a.sv".to_string(), Some("missing".to_string()));
    assert_eq!(
        check.errors,
        [
            AnalyzerError::UnknownIncludeWay { way: "other".to_string(), token: token("other", 1) },
            AnalyzerError::IncludeFailure {
                name: "/src/a.sv".to_string(),
                cause: "missing".to_string(),
                token: token("\"a.sv\"", 9),
            },
        ]
    );
}

#[test]
fn a_file_that_was_read_is_not_reported() {
    let mut check = CheckEmbedInclude::new();
    let declaration = file("inline", "\"a.sv\"");
    check.include_declaration(&declaration);
    check.include_outcome(&declaration, "/src/a.sv".to_string(), None);
    assert!(check.errors.is_empty());
}

#[test]
fn no_file_is_read_for_a_text_that_is_in_none() {
    for source in [TokenSource::Builtin, TokenSource::External] {
        let mut check = CheckEmbedInclude::new();
        let mut declaration = file("other", "\"a.sv\"");
        declaration.way.source = source;
        assert_eq!(check.include_declaration(&declaration), None);
        assert_eq!(check.errors.len(), 1);
    }
}

#[test]
fn the_scheme_of_a_file_is_taken_off() {
    assert_eq!(strip_file_scheme("file:///src/a.veryl"), Some("/src/a.veryl".to_string()));
    assert_eq!(strip_file_scheme("file://"), Some("".to_string()));
    assert_eq!(strip_file_scheme("file:/src"), None);
    assert_eq!(strip_file_scheme("/src/file://"), None);
    assert_eq!(strip_file_scheme(""), None);
}
