use camino::Utf8PathBuf;
use tgif::args::{
    ArgumentError, Cli, Operation, BITS_PER_KIBIBYTE, DEFAULT_CHUNK_SIZE, DEFAULT_REM_BITS,
};
use tgif::encode::check_parameters;

#[test]
fn defaults() {
    assert_eq!(DEFAULT_REM_BITS, 2);
    assert_eq!(DEFAULT_CHUNK_SIZE, 128);
    assert_eq!(BITS_PER_KIBIBYTE, 8192);
}

#[test]
fn to_tgif_by_extension() {
    let cli = Cli {
        src: Utf8PathBuf::from("pictures/cat.png"),
        dst: Utf8PathBuf::from("cat.tgif"),
        rem_bits: None,
        chunk_size: None,
    };
    match cli.verify_arguments() {
        Ok(Operation::ToTGIF(to)) => {
            assert_eq!(to.src, "pictures/cat.png");
            assert_eq!(to.dst, "cat.tgif");
            assert_eq!(to.rem_bits, 2);
            assert_eq!(to.chunk_size, 128 * 1024 * 8);
            assert_eq!(check_parameters(to.rem_bits, to.chunk_size), Ok(()));
        }
        other => panic!("{:?}", other),
    }
}

#[test]
fn to_tgif_with_parameters() {
    let cli = Cli {
        src: Utf8PathBuf::from("cat.bmp"),
        dst: Utf8PathBuf::from("out/cat.tgif"),
        rem_bits: Some(7),
        chunk_size: Some(1),
    };
    match cli.verify_arguments() {
        Ok(Operation::ToTGIF(to)) => {
            assert_eq!(to.rem_bits, 7);
            assert_eq!(to.chunk_size, 8192);
        }
        other => panic!("{:?}", other),
    }
}

#[test]
fn from_tgif_by_extension() {
    let cli = Cli {
        src: Utf8PathBuf::from("cat.tgif"),
        dst: Utf8PathBuf::from("cat.png"),
        rem_bits: Some(200),
        chunk_size: Some(0),
    };
    match cli.verify_arguments() {
        Ok(Operation::FromTGIF(from)) => {
            assert_eq!(from.src, "cat.tgif");
            assert_eq!(from.dst, "cat.png");
        }
        other => panic!("{:?}", other),
    }
}

#[test]
fn other_conversions_are_refused() {
    for (src, dst) in [
        ("cat.tgif", "cat.tgif"),
        ("cat.png", "cat.bmp"),
        ("cat", "cat.tgif"),
        ("cat.tgif", "cat"),
        ("tgif", "cat.png"),
        ("cat.png", "tgif"),
        ("", ""),
        ("cat.TGIF", "cat.png"),
    ] {
        let cli = Cli {
            src: Utf8PathBuf::from(src),
            dst: Utf8PathBuf::from(dst),
            rem_bits: None,
            chunk_size: None,
        };
        assert!(
            matches!(
                cli.verify_arguments(),
                Err(ArgumentError::UnsupportedConversion)
            ),
            "{} -> {}",
            src,
            dst
        );
    }
}

#[test]
fn parameters_are_checked_in_order() {
    let cli = |rem_bits, chunk_size| Cli {
        src: Utf8PathBuf::from("cat.png"),
        dst: Utf8PathBuf::from("cat.tgif"),
        rem_bits,
        chunk_size,
    };
    assert!(matches!(
        cli(Some(8), Some(0)).verify_arguments(),
        Err(ArgumentError::RemainderTooWide)
    ));
    assert!(matches!(
        cli(Some(7), Some(0)).verify_arguments(),
        Err(ArgumentError::ZeroChunkSize)
    ));
    assert!(matches!(
        cli(None, Some(524_288)).verify_arguments(),
        Err(ArgumentError::ChunkSizeTooLarge)
    ));
    match cli(Some(0), Some(524_287)).verify_arguments() {
        Ok(Operation::ToTGIF(to)) => {
            assert_eq!(to.rem_bits, 0);
            assert_eq!(to.chunk_size, 4_294_959_104);
        }
        other => panic!("{:?}", other),
    }
}

#[test]
fn operation_for_given_extensions() {
    let cli = || Cli {
        src: Utf8PathBuf::from("a"),
        dst: Utf8PathBuf::from("b"),
        rem_bits: Some(3),
        chunk_size: Some(2),
    };
    let ext = |name: &str| Some(name.to_string());
    match cli().choose_operation(ext("png"), ext("tgif")) {
        Ok(Operation::ToTGIF(to)) => {
            assert_eq!((to.src.as_str(), to.dst.as_str()), ("a", "b"));
            assert_eq!(to.rem_bits, 3);
            assert_eq!(to.chunk_size, 16_384);
        }
        other => panic!("{:?}", other),
    }
    match cli().choose_operation(ext("tgif"), ext("png")) {
        Ok(Operation::FromTGIF(from)) => {
            assert_eq!((from.src.as_str(), from.dst.as_str()), ("a", "b"));
        }
        other => panic!("{:?}", other),
    }
    assert!(matches!(
        cli().choose_operation(ext("tgif"), ext("tgif")),
        Err(ArgumentError::UnsupportedConversion)
    ));
    assert!(matches!(
        cli().choose_operation(None, ext("tgif")),
        Err(ArgumentError::UnsupportedConversion)
    ));
    assert!(matches!(
        cli().choose_operation(ext("tgif"), None),
        Err(ArgumentError::UnsupportedConversion)
    ));
    assert!(matches!(
        cli().choose_operation(ext("png"), ext("jpg")),
        Err(ArgumentError::UnsupportedConversion)
    ));
}
