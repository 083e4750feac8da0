use hugr_taso::compile::{path, DATA_DIR};
use hugr_taso::get_files::{ecc_path, ecc_url, Chunk, Download, Response};

#[test]
fn files_are_named_after_their_classes() {
    let name = "Nam_5_3_complete_ECC_set";
    assert_eq!(DATA_DIR, "data/compiled_tries");
    assert_eq!(path(name), "data/compiled_tries/Nam_5_3_complete_ECC_set.json");
    assert_eq!(ecc_path(name), "data/Nam_5_3_complete_ECC_set.json");
    assert_eq!(
        ecc_url(name),
        "https://eccs.eu-central-1.linodeobjects.com/Nam_5_3_complete_ECC_set.json"
    );
    assert_eq!(path(""), "data/compiled_tries/.json");
}

#[test]
fn a_download_needs_an_answer_with_a_length() {
    let failed = Download::begin("eccs", Response::Failed);
    assert_eq!(
        failed.err().unwrap(),
        "Failed to GET from 'https://eccs.eu-central-1.linodeobjects.com/eccs.json'"
    );
    let no_length = Download::begin("eccs", Response::NoLength);
    assert_eq!(
        no_length.err().unwrap(),
        "Failed to get content length from 'https://eccs.eu-central-1.linodeobjects.com/eccs.json'"
    );
}

#[test]
fn a_download_tells_what_it_does() {
    let download = Download::begin("eccs", Response::Length(10)).ok().unwrap();
    assert_eq!(
        download.start_message(),
        "Downloading https://eccs.eu-central-1.linodeobjects.com/eccs.json"
    );
    assert_eq!(download.create_error(), "Failed to create file 'data/eccs.json'");
    assert_eq!(
        download.finish_message(),
        "Downloaded https://eccs.eu-central-1.linodeobjects.com/eccs.json to data/eccs.json"
    );
}

#[test]
fn a_download_never_exceeds_its_length() {
    let mut download = Download::begin("eccs", Response::Length(10)).ok().unwrap();
    assert_eq!(download.chunk(Chunk::Written(4)), Ok(4));
    assert_eq!(download.chunk(Chunk::Written(0)), Ok(4));
    assert_eq!(download.chunk(Chunk::Written(6)), Ok(10));
    assert_eq!(download.chunk(Chunk::Written(3)), Ok(10));
    assert_eq!(download.downloaded, 10);
}

#[test]
fn a_download_fails_with_a_lost_piece() {
    let mut download = Download::begin("eccs", Response::Length(10)).ok().unwrap();
    assert_eq!(
        download.chunk(Chunk::NotReceived),
        Err("Error while downloading file".to_string())
    );
    assert_eq!(
        download.chunk(Chunk::NotWritten),
        Err("Error while writing to file".to_string())
    );
    assert_eq!(download.downloaded, 0);
}
