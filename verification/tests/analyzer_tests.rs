use apk_analyzer::analyzer::{ApkAnalyzer, ApkContents, ArchiveEntry};
use apk_analyzer::dex::{DexClass, DexFile};

fn entry(path: &str, data: Vec<u8>) -> ArchiveEntry {
    let raw_size = data.len() as u64;
    ArchiveEntry { path: String::from(path), raw_size, download_size: raw_size / 2, data }
}

/// In-memory stand-in for the contents the archive reader extracts from a
/// small application package: a manifest, one bytecode file, resources and
/// signing metadata, eighteen entries in all.
fn sample_apk() -> ApkContents {
    let names = [
        "AndroidManifest.xml",
        "classes.dex",
        "resources.arsc",
        "res/layout/main.xml",
        "res/drawable/icon.png",
        "res/values/strings.xml",
        "res/menu/menu.xml",
        "res/anim/fade.xml",
        "lib/armeabi/libapp.so",
        "assets/data.txt",
        "assets/config.json",
        "META-INF/CERT.RSA",
        "META-INF/CERT.SF",
        "META-INF/services/provider",
        "kotlin/kotlin.kotlin_builtins",
        "okhttp3/publicsuffixes.gz",
        "build-data.properties",
        "junk/trailing.bin",
    ];
    let mut entries: Vec<ArchiveEntry> = names.iter().map(|n| entry(n, vec![0u8; 16])).collect();
    entries.push(entry("META-INF/MANIFEST.MF", vec![b' '; 1233]));
    // 19 entries so far would overstate the fixture: drop the junk one.
    entries.retain(|e| e.path != "junk/trailing.bin");
    ApkContents { raw_size: 48196, download_size: 39591, entries }
}

#[test]
fn should_get_apk_size() {
    let analyzer = ApkAnalyzer::new();
    let apk = sample_apk();

    let size = analyzer.apk_file_size(&apk);
    assert_eq!(48196, size)
}

#[test]
fn should_get_download_size() {
    let analyzer = ApkAnalyzer::new();
    let apk = sample_apk();

    let size = analyzer.apk_download_size(&apk);
    assert_eq!(39591, size)
}

#[test]
fn should_cat_file() {
    let analyzer = ApkAnalyzer::new();
    let apk = sample_apk();

    let files = analyzer.file_cat(&apk, &String::from("META-INF/MANIFEST.MF")).unwrap();
    assert_eq!(1233, files.len());
}

#[test]
fn should_list_files() {
    let analyzer = ApkAnalyzer::new();
    let apk = sample_apk();

    let files = analyzer.files_list(apk);
    assert_eq!(18, files.len());
    for i in 1..files.len() {
        assert!(files[i - 1].path <= files[i].path);
    }
    assert_eq!("AndroidManifest.xml", files[0].path);
}

#[test]
fn should_list_dex() {
    let analyzer = ApkAnalyzer::new();
    let apk = sample_apk();

    let files = analyzer.dex_list(apk);
    assert_eq!(1, files.len());
    assert_eq!("classes.dex", files[0].path);
}

#[test]
fn should_list_dex_references() {
    let analyzer = ApkAnalyzer::new();
    let dexes = vec![DexFile {
        id: String::from("classes.dex"),
        classes: vec![DexClass {
            name: String::from("com.example.android.multiproject.MainActivity"),
            methods: vec![String::from("onCreate")],
            fields: Vec::new(),
        }],
        method_refs: (0..40).map(|i| format!("ref{}", i)).collect(),
        field_refs: Vec::new(),
    }];

    let files = analyzer.dex_references(&dexes);
    assert_eq!(40, files[0].referenced_method_count);
}

#[test]
fn should_list_dex_package() {
    let analyzer = ApkAnalyzer::new();
    let dexes = vec![DexFile {
        id: String::from("classes.dex"),
        classes: vec![
            DexClass {
                name: String::from("com.example.android.multiproject.MainActivity"),
                methods: vec![String::from("onCreate"), String::from("onResume")],
                fields: vec![String::from("tag")],
            },
            DexClass {
                name: String::from("com.example.android.multiproject.library.PersonView"),
                methods: vec![String::from("draw")],
                fields: Vec::new(),
            },
        ],
        method_refs: Vec::new(),
        field_refs: Vec::new(),
    }];

    let tree = analyzer.dex_packages(&dexes);
    assert_eq!(3, tree.total_method_count());
    assert_eq!(1, tree.total_field_count());
    assert!(tree
        .find(&vec![
            String::from("com"),
            String::from("example"),
            String::from("android"),
            String::from("multiproject"),
        ])
        .is_some());
}

#[test]
fn file_cat_reports_a_missing_entry() {
    let analyzer = ApkAnalyzer::new();
    let apk = sample_apk();

    assert!(analyzer.file_cat(&apk, &String::from("no/such/entry")).is_none());
}

#[test]
fn files_list_sorts_by_path() {
    let analyzer = ApkAnalyzer::new();
    let apk = ApkContents {
        raw_size: 0,
        download_size: 0,
        entries: vec![entry("b.txt", vec![1]), entry("a.txt", vec![2]), entry("a/x.txt", vec![3])],
    };

    let files = analyzer.files_list(apk);
    let paths: Vec<&str> = files.iter().map(|e| e.path.as_str()).collect();
    assert_eq!(vec!["a.txt", "a/x.txt", "b.txt"], paths);
}
