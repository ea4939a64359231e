use tdmcli::store::{
    current_version, is_other_version, read_template_dir, template_file_name, template_name,
    write_template_dir,
};

#[test]
fn archive_of_a_template_has_the_ending() {
    assert_eq!(template_file_name("web"), "web.tdmcli");
    assert_eq!(template_file_name("my project"), "my project.tdmcli");
    assert_eq!(template_file_name(""), ".tdmcli");
}

#[test]
fn template_is_what_stands_before_the_ending() {
    assert_eq!(template_name("web.tdmcli"), Some("web".to_string()));
    assert_eq!(template_name("a.b.tdmcli"), Some("a.b".to_string()));
    assert_eq!(template_name("x.tdmcli.tdmcli"), Some("x.tdmcli".to_string()));
    assert_eq!(template_name("übung.tdmcli"), Some("übung".to_string()));
}

#[test]
fn other_files_are_no_templates() {
    assert_eq!(template_name(".tdmcli"), None);
    assert_eq!(template_name("web.tdmcl"), None);
    assert_eq!(template_name("web.tdmcli.bak"), None);
    assert_eq!(template_name("webtdmcli"), None);
    assert_eq!(template_name("web.TDMCLI"), None);
    assert_eq!(template_name(""), None);
}

#[test]
fn template_and_file_name_stand_for_each_other() {
    for name in ["a", "web", "with space", "dots.in.name", "x.tdmcli"] {
        assert_eq!(template_name(&template_file_name(name)), Some(name.to_string()));
    }
}

#[test]
fn configuration_names_the_template_directory() {
    assert_eq!(read_template_dir("template_dir = \"/srv/templates\"\n"), Some("/srv/templates".to_string()));
    assert_eq!(read_template_dir("template_dir=/srv/t"), Some("/srv/t".to_string()));
    assert_eq!(read_template_dir("  template_dir   =   \"a b\"   \r\n"), Some("a b".to_string()));
    assert_eq!(read_template_dir("template_dir = \"\"\"x\"\"\n"), Some("x".to_string()));
    assert_eq!(read_template_dir("template_dir = a=b\n"), Some("a=b".to_string()));
    assert_eq!(read_template_dir("template_dir = \" padded \"\n"), Some(" padded ".to_string()));
}

#[test]
fn first_line_that_names_a_directory_counts() {
    let text = "# settings\nother = 1\ntemplate_dir = \"\"\ntemplate_dir = first\ntemplate_dir = second\n";
    assert_eq!(read_template_dir(text), Some("first".to_string()));
}

#[test]
fn key_is_a_prefix_of_the_line() {
    assert_eq!(read_template_dir("template_directory = x\n"), Some("x".to_string()));
    assert_eq!(read_template_dir("my_template_dir = x\n"), None);
    assert_eq!(read_template_dir("Template_dir = x\n"), None);
}

#[test]
fn configuration_without_a_directory_names_none() {
    assert_eq!(read_template_dir(""), None);
    assert_eq!(read_template_dir("\n\n"), None);
    assert_eq!(read_template_dir("template_dir\n"), None);
    assert_eq!(read_template_dir("template_dir =\n"), None);
    assert_eq!(read_template_dir("template_dir = \"\"\n"), None);
    assert_eq!(read_template_dir("template_dir = \"\n"), None);
    assert_eq!(read_template_dir("other = \"x\"\n"), None);
}

#[test]
fn configuration_is_written_as_one_quoted_line() {
    assert_eq!(write_template_dir("/srv/templates"), "template_dir = \"/srv/templates\"\n");
    assert_eq!(write_template_dir(""), "template_dir = \"\"\n");
}

#[test]
fn written_configuration_is_read_back() {
    for dir in ["/srv/templates", "C:\\Users\\me\\templates", "relative/dir", "with space"] {
        assert_eq!(read_template_dir(&write_template_dir(dir)), Some(dir.to_string()));
    }
}

#[test]
fn version_is_fixed() {
    assert_eq!(current_version(), "1.0");
}

#[test]
fn published_version_is_held_against_this_release() {
    assert!(!is_other_version("1.0"));
    assert!(!is_other_version("1.0\n"));
    assert!(!is_other_version("  1.0\r\n"));
    assert!(is_other_version("1.1"));
    assert!(is_other_version("1.0.0"));
    assert!(is_other_version("v1.0"));
    assert!(is_other_version(""));
    assert!(is_other_version("1. 0"));
}
