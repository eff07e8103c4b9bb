//! Tests for the surrounding toolkit: the template registry, styles and
//! themes, color and case conversion, truncation, and dispatch helpers.

use standout::insert_default_command;
use standout::rgb_to_ansi256;
use standout::to_screaming_snake_case;
use standout::truncate_to_width;
use standout::RegistryError;
use standout::ResolvedTemplate;
use standout::StyleValidationError;
use standout::StyleValue;
use standout::TemplateFile;
use standout::TemplateRegistry;
use standout::Theme;

// =========================================================================
// TemplateFile tests
// =========================================================================

#[test]
fn test_template_file_extension_priority() {
    let tmpl = TemplateFile::new("config", "config.tmpl", "/a/config.tmpl", "/a");
    let jinja2 = TemplateFile::new("config", "config.jinja2", "/a/config.jinja2", "/a");
    let j2 = TemplateFile::new("config", "config.j2", "/a/config.j2", "/a");
    let unknown = TemplateFile::new("config", "config.txt", "/a/config.txt", "/a");

    assert_eq!(tmpl.extension_priority(), 0);
    assert_eq!(jinja2.extension_priority(), 1);
    assert_eq!(j2.extension_priority(), 2);
    assert_eq!(unknown.extension_priority(), usize::MAX);
}

// =========================================================================
// TemplateRegistry tests
// =========================================================================

#[test]
fn test_registry_add_inline() {
    let mut registry = TemplateRegistry::new();
    registry.add_inline("header", "{{ title }}");

    assert_eq!(registry.len(), 1);
    assert!(!registry.is_empty());

    match registry.get("header").unwrap() {
        ResolvedTemplate::Inline(content) => assert_eq!(content, "{{ title }}"),
        _ => panic!("Expected inline template"),
    }
}

#[test]
fn test_registry_inline_overwrites() {
    let mut registry = TemplateRegistry::new();
    registry.add_inline("header", "first");
    registry.add_inline("header", "second");

    match registry.get("header").unwrap() {
        ResolvedTemplate::Inline(content) => assert_eq!(content, "second"),
        _ => panic!("Expected inline template"),
    }
}

#[test]
fn test_registry_not_found() {
    let registry = TemplateRegistry::new();
    let result = registry.get("nonexistent");

    assert!(matches!(result, Err(RegistryError::NotFound { .. })));
}

#[test]
fn test_registry_add_from_files() {
    let mut registry = TemplateRegistry::new();

    let files = vec![
        TemplateFile::new("config", "config.tmpl", "/templates/config.tmpl", "/templates"),
        TemplateFile::new(
            "todos/list",
            "todos/list.tmpl",
            "/templates/todos/list.tmpl",
            "/templates",
        ),
    ];

    registry.add_from_files(files).unwrap();

    // Should have 4 entries: 2 names + 2 names with extension
    assert_eq!(registry.len(), 4);

    // Can access by name without extension
    assert!(registry.get("config").is_ok());
    assert!(registry.get("todos/list").is_ok());

    // Can access by name with extension
    assert!(registry.get("config.tmpl").is_ok());
    assert!(registry.get("todos/list.tmpl").is_ok());
}

#[test]
fn test_registry_extension_priority() {
    let mut registry = TemplateRegistry::new();

    // Add files with different extensions for same base name
    // (j2 should be ignored because tmpl has higher priority)
    let files = vec![
        TemplateFile::new("config", "config.j2", "/templates/config.j2", "/templates"),
        TemplateFile::new("config", "config.tmpl", "/templates/config.tmpl", "/templates"),
    ];

    registry.add_from_files(files).unwrap();

    // Extensionless name should resolve to .tmpl
    let resolved = registry.get("config").unwrap();
    match resolved {
        ResolvedTemplate::File(path) => {
            assert!(path.ends_with("config.tmpl"));
        }
        _ => panic!("Expected file template"),
    }
}

#[test]
fn test_registry_collision_different_dirs() {
    let mut registry = TemplateRegistry::new();

    let files = vec![
        TemplateFile::new(
            "config",
            "config.tmpl",
            "/app/templates/config.tmpl",
            "/app/templates",
        ),
        TemplateFile::new(
            "config",
            "config.tmpl",
            "/plugins/templates/config.tmpl",
            "/plugins/templates",
        ),
    ];

    let result = registry.add_from_files(files);

    assert!(matches!(result, Err(RegistryError::Collision { .. })));

    if let Err(RegistryError::Collision { name, .. }) = result {
        assert_eq!(name, "config");
    }
}

#[test]
fn test_registry_inline_shadows_file() {
    let mut registry = TemplateRegistry::new();

    // Add file-based template first
    let files = vec![TemplateFile::new(
        "config",
        "config.tmpl",
        "/templates/config.tmpl",
        "/templates",
    )];
    registry.add_from_files(files).unwrap();

    // Add inline with same name (should shadow)
    registry.add_inline("config", "inline content");

    match registry.get("config").unwrap() {
        ResolvedTemplate::Inline(content) => assert_eq!(content, "inline content"),
        _ => panic!("Expected inline template"),
    }
}

#[test]
fn test_registry_names_iterator() {
    let mut registry = TemplateRegistry::new();
    registry.add_inline("a", "content a");
    registry.add_inline("b", "content b");

    let names: Vec<String> = registry.names();
    assert!(names.contains(&"a".to_string()));
    assert!(names.contains(&"b".to_string()));
}

#[test]
fn test_registry_clear() {
    let mut registry = TemplateRegistry::new();
    registry.add_inline("a", "content");

    assert!(!registry.is_empty());
    registry.clear();
    assert!(registry.is_empty());
}

// =========================================================================
// Error display tests
// =========================================================================

#[test]
fn test_error_display_collision() {
    let err = RegistryError::Collision {
        name: "config".to_string(),
        existing_path: "/a/config.tmpl".to_string(),
        existing_dir: "/a".to_string(),
        conflicting_path: "/b/config.tmpl".to_string(),
        conflicting_dir: "/b".to_string(),
    };

    let display = err.message();
    assert!(display.contains("config"));
    assert!(display.contains("/a/config.tmpl"));
    assert!(display.contains("/b/config.tmpl"));
}

#[test]
fn test_error_display_not_found() {
    let err = RegistryError::NotFound {
        name: "missing".to_string(),
    };

    let display = err.message();
    assert!(display.contains("missing"));
}

// =========================================================================
// Style validation error tests
// =========================================================================

#[test]
fn test_unresolved_alias_error_display() {
    let err = StyleValidationError::UnresolvedAlias {
        from: "orphan".to_string(),
        to: "missing".to_string(),
    };
    let msg = err.message();
    assert!(msg.contains("orphan"));
    assert!(msg.contains("missing"));
}

#[test]
fn test_cycle_detected_error_display() {
    let err = StyleValidationError::CycleDetected {
        path: vec!["a".to_string(), "b".to_string(), "a".to_string()],
    };
    let msg = err.message();
    assert!(msg.contains("cycle"));
    assert!(msg.contains("a -> b -> a"));
}

// =========================================================================
// Theme tests
// =========================================================================

#[test]
fn test_theme_validate_invalid() {
    let theme = Theme::new().add("orphan", StyleValue::alias("missing"));
    assert!(matches!(
        theme.validate(),
        Err(StyleValidationError::UnresolvedAlias { .. })
    ));
}

#[test]
fn test_theme_validate_valid() {
    let theme = Theme::new()
        .add("visual", StyleValue::concrete("cyan"))
        .add("semantic", StyleValue::alias("visual"));

    assert!(theme.validate().is_ok());
}

#[test]
fn test_theme_validate_cycle() {
    let theme = Theme::new()
        .add("a", StyleValue::alias("b"))
        .add("b", StyleValue::alias("a"));

    assert!(matches!(
        theme.validate(),
        Err(StyleValidationError::CycleDetected { .. })
    ));
}

#[test]
fn test_theme_add_concrete() {
    let theme = Theme::new().add("bold", StyleValue::concrete("bold"));
    assert!(theme.styles().has("bold"));
}

#[test]
fn test_theme_add_alias_string() {
    let target = String::from("base");
    let theme = Theme::new()
        .add("base", StyleValue::concrete("dim"))
        .add("alias", StyleValue::alias(target.as_str()));

    assert!(theme.styles().has("alias"));
}

#[test]
fn test_theme_from_styles() {
    let styles = standout::Styles::new()
        .add("bold", StyleValue::concrete("bold"))
        .add("dim", StyleValue::concrete("dim"));

    let theme = Theme::from_styles(styles);
    assert!(theme.styles().has("bold"));
    assert!(theme.styles().has("dim"));
}

#[test]
fn test_theme_default() {
    let theme = Theme::default();
    assert!(theme.styles().is_empty());
}

#[test]
fn test_theme_add_alias_str() {
    let theme = Theme::new()
        .add("base", StyleValue::concrete("dim"))
        .add("alias", StyleValue::alias("base"));

    assert!(theme.styles().has("base"));
    assert!(theme.styles().has("alias"));
}

// =========================================================================
// Color conversion tests
// =========================================================================

#[test]
fn test_rgb_to_ansi256_grayscale() {
    assert_eq!(rgb_to_ansi256((0, 0, 0)), 16);
    assert_eq!(rgb_to_ansi256((255, 255, 255)), 231);
    let mid = rgb_to_ansi256((128, 128, 128));
    assert!((232..=255).contains(&mid));
}

#[test]
fn test_rgb_to_ansi256_color_cube() {
    assert_eq!(rgb_to_ansi256((255, 0, 0)), 196);
    assert_eq!(rgb_to_ansi256((0, 255, 0)), 46);
    assert_eq!(rgb_to_ansi256((0, 0, 255)), 21);
}

// =========================================================================
// Case conversion tests
// =========================================================================

#[test]
fn test_screaming_snake_case() {
    assert_eq!(to_screaming_snake_case("name"), "NAME");
    assert_eq!(to_screaming_snake_case("created_at"), "CREATED_AT");
    assert_eq!(to_screaming_snake_case("createdAt"), "CREATED_AT");
    assert_eq!(to_screaming_snake_case("my-field"), "MY_FIELD");
    assert_eq!(to_screaming_snake_case("XMLParser"), "XMLPARSER");
}

// =========================================================================
// Truncation tests
// =========================================================================

#[test]
fn test_truncate_to_width_no_truncation() {
    assert_eq!(truncate_to_width("Hello", 10), "Hello");
    assert_eq!(truncate_to_width("Hello", 5), "Hello");
}

#[test]
fn test_truncate_to_width_with_truncation() {
    assert_eq!(truncate_to_width("Hello World", 6), "Hello…");
    assert_eq!(truncate_to_width("Hello World", 7), "Hello …");
}

#[test]
fn test_truncate_to_width_empty() {
    assert_eq!(truncate_to_width("", 5), "");
}

#[test]
fn test_truncate_to_width_exact_fit() {
    assert_eq!(truncate_to_width("12345", 5), "12345");
}

#[test]
fn test_truncate_to_width_one_over() {
    assert_eq!(truncate_to_width("123456", 5), "1234…");
}

#[test]
fn test_truncate_to_width_zero_width() {
    assert_eq!(truncate_to_width("Hello", 0), "…");
}

#[test]
fn test_truncate_to_width_one_width() {
    assert_eq!(truncate_to_width("Hello", 1), "…");
}

#[test]
fn test_truncate_to_width_wide_characters() {
    // Each of these characters is two columns wide.
    assert_eq!(truncate_to_width("日本語", 4), "日…");
    assert_eq!(truncate_to_width("日本語", 6), "日本語");
}

// =========================================================================
// Dispatch helper tests
// =========================================================================

fn args(xs: &[&str]) -> Vec<String> {
    xs.iter().map(|s| s.to_string()).collect()
}

#[test]
fn test_insert_default_command_basic() {
    let result = insert_default_command(args(&["myapp", "-v"]), "list");
    assert_eq!(result, args(&["myapp", "list", "-v"]));
}

#[test]
fn test_insert_default_command_no_args() {
    let result = insert_default_command(args(&["myapp"]), "list");
    assert_eq!(result, args(&["myapp", "list"]));
}

#[test]
fn test_insert_default_command_empty() {
    let result = insert_default_command(Vec::new(), "list");
    assert_eq!(result, args(&["list"]));
}

#[test]
fn test_insert_default_command_with_options() {
    let result = insert_default_command(args(&["myapp", "--verbose", "--output", "json"]), "status");
    assert_eq!(result, args(&["myapp", "status", "--verbose", "--output", "json"]));
}

#[test]
fn test_insert_default_command_with_positional() {
    let result = insert_default_command(args(&["myapp", "file.txt"]), "cat");
    assert_eq!(result, args(&["myapp", "cat", "file.txt"]));
}
