use std::cell::RefCell;
use std::rc::Rc;

use file_objects_rs::dir::DirEntry;
use file_objects_rs::error::{create_error, Error, ErrorKind};
use file_objects_rs::fake::FakeFileSystem;
use file_objects_rs::metadata::{FakeMetadata, FakePermissions};
use file_objects_rs::open_file::{FakeOpenFile, SeekFrom};
use file_objects_rs::options::OpenOptions;
use file_objects_rs::path::{parse, FsPath};

/// A path as text, as the tests write it.
#[derive(Clone, Debug, PartialEq, Eq, PartialOrd, Ord)]
struct TestPath(String);

impl TestPath {
    fn from(text: &str) -> Self {
        TestPath(text.to_string())
    }

    fn of(path: &FsPath) -> Self {
        TestPath(String::from_utf8(path.to_bytes()).unwrap())
    }

    fn join<S: AsRef<str>>(&self, name: S) -> TestPath {
        let name = name.as_ref();
        if name.starts_with('/') || self.0.is_empty() {
            TestPath(name.to_string())
        } else if self.0.ends_with('/') {
            TestPath(format!("{}{}", self.0, name))
        } else {
            TestPath(format!("{}/{}", self.0, name))
        }
    }

    fn fs_path(&self) -> FsPath {
        parse(self.0.as_bytes())
    }
}

impl AsRef<TestPath> for TestPath {
    fn as_ref(&self) -> &TestPath {
        self
    }
}

impl PartialEq<&TestPath> for TestPath {
    fn eq(&self, other: &&TestPath) -> bool {
        self.0 == other.0
    }
}

type Shared = Rc<RefCell<FakeFileSystem>>;

/// The file system under test, shared with the handles opened on it.
#[derive(Debug)]
struct TestFs {
    inner: Shared,
}

#[derive(Debug)]
struct TestFile {
    fs: Shared,
    handle: FakeOpenFile,
}

#[derive(Debug)]
struct TestDirEntry(DirEntry);

impl TestDirEntry {
    fn path(&self) -> TestPath {
        TestPath::of(&self.0.path())
    }
}

impl TestFs {
    fn new() -> Self {
        TestFs { inner: Rc::new(RefCell::new(FakeFileSystem::new())) }
    }

    fn temp_dir(&self) -> TestPath {
        let dir = TestPath::from("/tmp/test");
        self.create_dir_all(&dir).unwrap();
        dir
    }

    fn wrap(&self, handle: Result<FakeOpenFile, Error>) -> Result<TestFile, Error> {
        handle.map(|handle| TestFile { fs: self.inner.clone(), handle })
    }

    fn open<P: AsRef<TestPath>>(&self, path: P) -> Result<TestFile, Error> {
        let opened = self.inner.borrow().open(&path.as_ref().fs_path());
        self.wrap(opened)
    }

    fn create<P: AsRef<TestPath>>(&self, path: P) -> Result<TestFile, Error> {
        let opened = self.inner.borrow_mut().create(&path.as_ref().fs_path());
        self.wrap(opened)
    }

    fn open_with_options<P: AsRef<TestPath>>(
        &self,
        path: P,
        options: &OpenOptions,
    ) -> Result<TestFile, Error> {
        let opened = self.inner.borrow_mut().open_with_options(&path.as_ref().fs_path(), options);
        self.wrap(opened)
    }

    fn set_permissions<P: AsRef<TestPath>>(
        &self,
        path: P,
        perm: FakePermissions,
    ) -> Result<(), Error> {
        self.inner.borrow_mut().set_permissions(&path.as_ref().fs_path(), perm)
    }

    fn metadata<P: AsRef<TestPath>>(&self, path: P) -> Result<FakeMetadata, Error> {
        self.inner.borrow().metadata(&path.as_ref().fs_path())
    }

    fn current_dir(&self) -> Result<TestPath, Error> {
        self.inner.borrow().current_dir().map(|p| TestPath::of(&p))
    }

    fn set_current_dir<P: AsRef<TestPath>>(&self, path: P) -> Result<(), Error> {
        self.inner.borrow_mut().set_current_dir(&path.as_ref().fs_path())
    }

    fn is_dir<P: AsRef<TestPath>>(&self, path: P) -> bool {
        self.inner.borrow().is_dir(&path.as_ref().fs_path())
    }

    fn is_file<P: AsRef<TestPath>>(&self, path: P) -> bool {
        self.inner.borrow().is_file(&path.as_ref().fs_path())
    }

    fn create_dir<P: AsRef<TestPath>>(&self, path: P) -> Result<(), Error> {
        self.inner.borrow_mut().create_dir(&path.as_ref().fs_path())
    }

    fn create_dir_all<P: AsRef<TestPath>>(&self, path: P) -> Result<(), Error> {
        self.inner.borrow_mut().create_dir_all(&path.as_ref().fs_path())
    }

    fn remove_dir<P: AsRef<TestPath>>(&self, path: P) -> Result<(), Error> {
        self.inner.borrow_mut().remove_dir(&path.as_ref().fs_path())
    }

    fn remove_dir_all<P: AsRef<TestPath>>(&self, path: P) -> Result<(), Error> {
        self.inner.borrow_mut().remove_dir_all(&path.as_ref().fs_path())
    }

    fn read_dir<P: AsRef<TestPath>>(
        &self,
        path: P,
    ) -> Result<std::vec::IntoIter<Result<TestDirEntry, Error>>, Error> {
        let mut reading = self.inner.borrow().read_dir(&path.as_ref().fs_path())?;
        let mut entries = Vec::new();
        while let Some(entry) = reading.next() {
            entries.push(Ok(TestDirEntry(entry)));
        }
        Ok(entries.into_iter())
    }

    fn remove_file<P: AsRef<TestPath>>(&self, path: P) -> Result<(), Error> {
        self.inner.borrow_mut().remove_file(&path.as_ref().fs_path())
    }

    fn copy_file<P: AsRef<TestPath>, Q: AsRef<TestPath>>(&self, from: P, to: Q) -> Result<(), Error> {
        self.inner.borrow_mut().copy_file(&from.as_ref().fs_path(), &to.as_ref().fs_path())
    }

    fn rename<P: AsRef<TestPath>, Q: AsRef<TestPath>>(&self, from: P, to: Q) -> Result<(), Error> {
        self.inner.borrow_mut().rename(&from.as_ref().fs_path(), &to.as_ref().fs_path())
    }

    fn canonicalize<P: AsRef<TestPath>>(&self, path: P) -> Result<TestPath, Error> {
        self.inner.borrow().canonicalize(&path.as_ref().fs_path()).map(|p| TestPath::of(&p))
    }
}

impl TestFile {
    fn read(&mut self, buf: &mut [u8]) -> Result<usize, Error> {
        let fs = self.fs.borrow();
        fs.read(&mut self.handle, buf)
    }

    fn read_to_end(&mut self, buf: &mut Vec<u8>) -> Result<usize, Error> {
        let mut total = 0;
        let mut chunk = [0u8; 7];
        loop {
            let n = self.read(&mut chunk)?;
            if n == 0 {
                return Ok(total);
            }
            buf.extend_from_slice(&chunk[..n]);
            total += n;
        }
    }

    fn read_exact(&mut self, buf: &mut [u8]) -> Result<(), Error> {
        let mut filled = 0;
        while filled < buf.len() {
            let n = self.read(&mut buf[filled..])?;
            if n == 0 {
                return Err(create_error(ErrorKind::UnexpectedEof));
            }
            filled += n;
        }
        Ok(())
    }

    fn write(&mut self, buf: &[u8]) -> Result<usize, Error> {
        let mut fs = self.fs.borrow_mut();
        fs.write(&mut self.handle, buf)
    }

    fn write_all(&mut self, buf: &[u8]) -> Result<(), Error> {
        let n = self.write(buf)?;
        if n == buf.len() {
            Ok(())
        } else {
            Err(create_error(ErrorKind::WriteZero))
        }
    }

    fn seek(&mut self, pos: SeekFrom) -> Result<u64, Error> {
        let fs = self.fs.borrow();
        fs.seek(&mut self.handle, pos)
    }

    fn metadata(&self) -> Result<FakeMetadata, Error> {
        let fs = self.fs.borrow();
        fs.file_metadata(&self.handle)
    }

    fn set_len(&self, size: u64) -> Result<(), Error> {
        let mut fs = self.fs.borrow_mut();
        fs.set_len(&self.handle, size)
    }
}

fn read_file<P: AsRef<TestPath>>(fs: &TestFs, path: P) -> Result<Vec<u8>, Error> {
    let mut reader = fs.open(path)?;
    let mut result = vec![];
    reader.read_to_end(&mut result)?;
    Ok(result)
}

fn read_file_to_string<P: AsRef<TestPath>>(fs: &TestFs, path: P) -> Result<String, Error> {
    let mut reader = fs.open(path)?;
    let mut result = vec![];
    reader.read_to_end(&mut result)?;
    String::from_utf8(result).map_err(|_| create_error(ErrorKind::InvalidData))
}

fn read_file_into<P: AsRef<TestPath>>(
    fs: &TestFs,
    path: P,
    buf: &mut Vec<u8>,
) -> Result<usize, Error> {
    let mut reader = fs.open(path)?;
    reader.read_to_end(buf)
}

fn create_file<P: AsRef<TestPath>, B: AsRef<[u8]>>(
    fs: &TestFs,
    path: P,
    buf: B,
) -> Result<(), Error> {
    let opts = OpenOptions::new().write(true).create_new(true);
    let mut writer = fs.open_with_options(path, &opts)?;
    writer.write_all(buf.as_ref())
}

fn write_file<P: AsRef<TestPath>, B: AsRef<[u8]>>(
    fs: &TestFs,
    path: P,
    buf: B,
) -> Result<(), Error> {
    let mut writer = fs.create(path)?;
    writer.write_all(buf.as_ref())
}

fn overwrite_file<P: AsRef<TestPath>, B: AsRef<[u8]>>(
    fs: &TestFs,
    path: P,
    buf: B,
) -> Result<(), Error> {
    let opts = OpenOptions::new().write(true).truncate(true);
    let mut writer = fs.open_with_options(path, &opts)?;
    writer.write_all(buf.as_ref())
}

fn set_readonly<P: AsRef<TestPath>>(fs: &TestFs, path: P, readonly: bool) -> Result<(), Error> {
    let mut p = fs.metadata(&path)?.permissions();
    p.set_readonly(readonly);
    fs.set_permissions(&path, p)
}

fn readonly<P: AsRef<TestPath>>(fs: &TestFs, path: P) -> Result<bool, Error> {
    Ok(fs.metadata(&path)?.permissions().readonly())
}

fn set_mode<P: AsRef<TestPath>>(fs: &TestFs, path: P, mode: u32) -> Result<(), Error> {
    let mut perms = fs.metadata(&path)?.permissions();
    perms.set_mode(mode);
    fs.set_permissions(&path, perms)
}

fn mode<P: AsRef<TestPath>>(fs: &TestFs, path: P) -> Result<u32, Error> {
    Ok(fs.metadata(&path)?.permissions().mode())
}

fn open_writable(fs: &TestFs, path: &TestPath) -> Result<TestFile, Error> {
    let opts = OpenOptions::new().write(true);
    fs.open_with_options(path, &opts)
}

#[test]
fn set_current_dir_fails_if_node_does_not_exists() {
    let harness = TestFs::new();
    let fs = &harness;
    let temp = fs.temp_dir();
    let parent = &temp;
    let _parent = parent;
    let path = parent.join("does_not_exist");

    let result = fs.set_current_dir(path);

    assert!(result.is_err());
    assert_eq!(result.unwrap_err().kind(), ErrorKind::NotFound);
}

#[test]
fn set_current_dir_fails_if_node_is_a_file() {
    let harness = TestFs::new();
    let fs = &harness;
    let temp = fs.temp_dir();
    let parent = &temp;
    let _parent = parent;
    let path = parent.join("file");

    create_file(fs, &path, "").unwrap();

    let result = fs.set_current_dir(path);

    assert!(result.is_err());
    assert_eq!(result.unwrap_err().kind(), ErrorKind::Other);
}

#[test]
fn is_dir_returns_true_if_node_is_dir() {
    let harness = TestFs::new();
    let fs = &harness;
    let temp = fs.temp_dir();
    let parent = &temp;
    let _parent = parent;
    let path = parent.join("new_dir");

    fs.create_dir(&path).unwrap();

    assert!(fs.is_dir(&path));
}

#[test]
fn is_dir_returns_false_if_node_is_file() {
    let harness = TestFs::new();
    let fs = &harness;
    let temp = fs.temp_dir();
    let parent = &temp;
    let _parent = parent;
    let path = parent.join("new_dir");

    create_file(fs, &path, "").unwrap();

    assert!(!fs.is_dir(&path));
}

#[test]
fn is_dir_returns_false_if_node_does_not_exist() {
    let harness = TestFs::new();
    let fs = &harness;
    let temp = fs.temp_dir();
    let parent = &temp;
    let _parent = parent;
    assert!(!fs.is_dir(parent.join("does_not_exist")));
}

#[test]
fn is_file_returns_true_if_node_is_file() {
    let harness = TestFs::new();
    let fs = &harness;
    let temp = fs.temp_dir();
    let parent = &temp;
    let _parent = parent;
    let path = parent.join("new_file");

    create_file(fs, &path, "").unwrap();

    assert!(fs.is_file(&path));
}

#[test]
fn is_file_returns_false_if_node_is_dir() {
    let harness = TestFs::new();
    let fs = &harness;
    let temp = fs.temp_dir();
    let parent = &temp;
    let _parent = parent;
    let path = parent.join("new_dir");

    fs.create_dir(&path).unwrap();

    assert!(!fs.is_file(&path));
}

#[test]
fn is_file_returns_false_if_node_does_not_exist() {
    let harness = TestFs::new();
    let fs = &harness;
    let temp = fs.temp_dir();
    let parent = &temp;
    let _parent = parent;
    assert!(!fs.is_file(parent.join("does_not_exist")));
}

#[test]
fn create_dir_creates_new_dir() {
    let harness = TestFs::new();
    let fs = &harness;
    let temp = fs.temp_dir();
    let parent = &temp;
    let _parent = parent;
    let path = parent.join("new_dir");

    let result = fs.create_dir(&path);

    assert!(result.is_ok());
    assert!(fs.is_dir(path));
}

#[test]
fn create_dir_fails_if_dir_already_exists() {
    let harness = TestFs::new();
    let fs = &harness;
    let temp = fs.temp_dir();
    let parent = &temp;
    let _parent = parent;
    let path = parent.join("new_dir");

    fs.create_dir(&path).unwrap();

    let result = fs.create_dir(&path);

    assert!(result.is_err());
    assert_eq!(result.unwrap_err().kind(), ErrorKind::AlreadyExists);
}

#[test]
fn create_dir_fails_if_parent_does_not_exist() {
    let harness = TestFs::new();
    let fs = &harness;
    let temp = fs.temp_dir();
    let parent = &temp;
    let _parent = parent;
    let path = parent.join("parent/new_dir");

    let result = fs.create_dir(&path);

    assert!(result.is_err());
    assert_eq!(result.unwrap_err().kind(), ErrorKind::NotFound);
}

#[test]
fn create_dir_all_creates_dirs_in_path() {
    let harness = TestFs::new();
    let fs = &harness;
    let temp = fs.temp_dir();
    let parent = &temp;
    let _parent = parent;
    let result = fs.create_dir_all(parent.join("a/b/c"));

    assert!(result.is_ok());
    assert!(fs.is_dir(parent.join("a")));
    assert!(fs.is_dir(parent.join("a/b")));
    assert!(fs.is_dir(parent.join("a/b/c")));
}

#[test]
fn create_dir_all_still_succeeds_if_any_dir_already_exists() {
    let harness = TestFs::new();
    let fs = &harness;
    let temp = fs.temp_dir();
    let parent = &temp;
    let _parent = parent;
    fs.create_dir_all(parent.join("a/b")).unwrap();

    let result = fs.create_dir_all(parent.join("a/b/c"));

    assert!(result.is_ok());
    assert!(fs.is_dir(parent.join("a")));
    assert!(fs.is_dir(parent.join("a/b")));
    assert!(fs.is_dir(parent.join("a/b/c")));
}

#[test]
fn remove_dir_deletes_dir() {
    let harness = TestFs::new();
    let fs = &harness;
    let temp = fs.temp_dir();
    let parent = &temp;
    let _parent = parent;
    let path = parent.join("dir");

    fs.create_dir(&path).unwrap();

    let result = fs.remove_dir(&path);

    assert!(result.is_ok());
    assert!(!fs.is_dir(&path));
}

#[test]
fn remove_dir_does_not_affect_parent() {
    let harness = TestFs::new();
    let fs = &harness;
    let temp = fs.temp_dir();
    let parent = &temp;
    let _parent = parent;
    let path = parent.join("parent/child");

    fs.create_dir_all(&path).unwrap();

    let result = fs.remove_dir(&path);

    assert!(result.is_ok());
    assert!(fs.is_dir(parent.join("parent")));
    assert!(!fs.is_dir(parent.join("child")));
}

#[test]
fn remove_dir_fails_if_node_does_not_exist() {
    let harness = TestFs::new();
    let fs = &harness;
    let temp = fs.temp_dir();
    let parent = &temp;
    let _parent = parent;
    let result = fs.remove_dir(parent.join("does_not_exist"));

    assert!(result.is_err());
    assert_eq!(result.unwrap_err().kind(), ErrorKind::NotFound);
}

#[test]
fn remove_dir_fails_if_node_is_a_file() {
    let harness = TestFs::new();
    let fs = &harness;
    let temp = fs.temp_dir();
    let parent = &temp;
    let _parent = parent;
    let path = parent.join("file");

    create_file(fs, &path, "").unwrap();

    let result = fs.remove_dir(&path);

    assert!(result.is_err());
    assert_eq!(result.unwrap_err().kind(), ErrorKind::Other);
    assert!(fs.is_file(&path));
}

#[test]
fn remove_dir_fails_if_dir_is_not_empty() {
    let harness = TestFs::new();
    let fs = &harness;
    let temp = fs.temp_dir();
    let parent = &temp;
    let _parent = parent;
    let path = parent.join("dir");
    let child = path.join("file");

    fs.create_dir(&path).unwrap();
    create_file(fs, &child, "").unwrap();

    let result = fs.remove_dir(&path);

    assert!(result.is_err());
    assert_eq!(result.unwrap_err().kind(), ErrorKind::Other);
    assert!(fs.is_dir(&path));
    assert!(fs.is_file(&child));
}

#[test]
fn remove_dir_all_removes_dir_and_contents() {
    let harness = TestFs::new();
    let fs = &harness;
    let temp = fs.temp_dir();
    let parent = &temp;
    let _parent = parent;
    let path = parent.join("dir");
    let child = path.join("file");

    fs.create_dir(&path).unwrap();
    create_file(fs, &child, "").unwrap();

    let result = fs.remove_dir_all(&path);

    assert!(result.is_ok());
    assert!(!fs.is_dir(&path));
    assert!(!fs.is_file(&child));
    assert!(fs.is_dir(parent));
}

#[test]
fn remove_dir_all_fails_if_node_is_a_file() {
    let harness = TestFs::new();
    let fs = &harness;
    let temp = fs.temp_dir();
    let parent = &temp;
    let _parent = parent;
    let path = parent.join("file");

    create_file(fs, &path, "").unwrap();

    let result = fs.remove_dir_all(&path);

    assert!(result.is_err());
    assert_eq!(result.unwrap_err().kind(), ErrorKind::Other);
    assert!(fs.is_file(&path));
}

#[test]
fn remove_dir_all_removes_dir_and_contents_if_descendant_not_writable() {
    let harness = TestFs::new();
    let fs = &harness;
    let temp = fs.temp_dir();
    let parent = &temp;
    let _parent = parent;
    let mode = 0o555;

    let path = parent.join("dir");
    let child = path.join("child");

    fs.create_dir(&path).unwrap();
    fs.create_dir(&child).unwrap();

    set_mode(fs, &child, mode).unwrap();

    let result = fs.remove_dir_all(&path);

    assert!(result.is_ok());
    assert!(!fs.is_dir(&path));
    assert!(!fs.is_dir(&child));
}

#[test]
fn remove_dir_all_removes_dir_and_contents_if_descendant_not_executable() {
    let harness = TestFs::new();
    let fs = &harness;
    let temp = fs.temp_dir();
    let parent = &temp;
    let _parent = parent;
    let mode = 0o666;

    let path = parent.join("dir");
    let child = path.join("child");

    fs.create_dir(&path).unwrap();
    fs.create_dir(&child).unwrap();

    set_mode(fs, &child, mode).unwrap();

    let result = fs.remove_dir_all(&path);

    assert!(result.is_ok());
    assert!(!fs.is_dir(&path));
    assert!(!fs.is_dir(&child));
}

#[test]
fn remove_dir_all_fails_if_descendant_not_readable() {
    let harness = TestFs::new();
    let fs = &harness;
    let temp = fs.temp_dir();
    let parent = &temp;
    let _parent = parent;
    let mode = 0o333;

    let path = parent.join("dir");
    let child = path.join("child");

    fs.create_dir(&path).unwrap();
    fs.create_dir(&child).unwrap();

    set_mode(fs, &child, mode).unwrap();

    let result = fs.remove_dir_all(&path);

    assert!(result.is_err());
    assert_eq!(result.unwrap_err().kind(), ErrorKind::PermissionDenied);
    assert!(fs.is_dir(&path));
    assert!(fs.is_dir(&child));
}

#[test]
fn read_dir_returns_dir_entries() {
    let harness = TestFs::new();
    let fs = &harness;
    let temp = fs.temp_dir();
    let parent = &temp;
    let _parent = parent;
    let file1 = parent.join("file1");
    let file2 = parent.join("file2");
    let dir1 = parent.join("dir1");
    let dir2 = parent.join("dir2");
    let file3 = dir1.join("file3");
    let file4 = dir2.join("file4");

    create_file(fs, &file1, "").unwrap();
    create_file(fs, &file2, "").unwrap();
    fs.create_dir(&dir1).unwrap();
    fs.create_dir(&dir2).unwrap();
    create_file(fs, &file3, "").unwrap();
    create_file(fs, &file4, "").unwrap();

    let result = fs.read_dir(parent);

    assert!(result.is_ok());

    let mut entries: Vec<TestPath> = result.unwrap().map(|e| e.unwrap().path()).collect();
    let expected_paths = &mut [file1, file2, dir1, dir2];

    entries.sort();
    expected_paths.sort();

    assert_eq!(&entries, expected_paths);
}

#[test]
fn read_dir_fails_if_node_does_not_exist() {
    let harness = TestFs::new();
    let fs = &harness;
    let temp = fs.temp_dir();
    let parent = &temp;
    let _parent = parent;
    let path = parent.join("does_not_exist");
    let result = fs.read_dir(&path);

    assert!(result.is_err());

    match result {
        Ok(_) => panic!("should be an err"),
        Err(err) => assert_eq!(err.kind(), ErrorKind::NotFound),
    }
}

#[test]
fn read_dir_fails_if_node_is_a_file() {
    let harness = TestFs::new();
    let fs = &harness;
    let temp = fs.temp_dir();
    let parent = &temp;
    let _parent = parent;
    let path = parent.join("file");

    create_file(fs, &path, "").unwrap();

    let result = fs.read_dir(&path);

    assert!(result.is_err());
    match result {
        Ok(_) => panic!("should be an err"),
        Err(err) => assert_eq!(err.kind(), ErrorKind::Other),
    }
}

#[test]
fn create_object_writes_to_new_file() {
    let harness = TestFs::new();
    let fs = &harness;
    let temp = fs.temp_dir();
    let parent = &temp;
    let _parent = parent;
    let path = parent.join("new_file");
    let mut writer = fs.create(&path).unwrap();
    let result = writer.write_all(b"new contents");

    assert!(result.is_ok());

    let contents = read_file(fs, path).unwrap();

    assert_eq!(&contents, b"new contents");
}

#[test]
fn create_object_fails_if_file_is_readonly() {
    let harness = TestFs::new();
    let fs = &harness;
    let temp = fs.temp_dir();
    let parent = &temp;
    let _parent = parent;
    let path = parent.join("test_file");

    create_file(fs, &path, "").unwrap();
    set_readonly(fs, &path, true).unwrap();

    let result = fs.create(&path);

    assert!(result.is_err());
    assert_eq!(result.unwrap_err().kind(), ErrorKind::PermissionDenied);
}

#[test]
fn write_file_writes_to_new_file() {
    let harness = TestFs::new();
    let fs = &harness;
    let temp = fs.temp_dir();
    let parent = &temp;
    let _parent = parent;
    let path = parent.join("new_file");
    let result = write_file(fs, &path, "new contents");

    assert!(result.is_ok());

    let contents = String::from_utf8(read_file(fs, path).unwrap()).unwrap();

    assert_eq!(&contents, "new contents");
}

#[test]
fn write_file_overwrites_contents_of_existing_file() {
    let harness = TestFs::new();
    let fs = &harness;
    let temp = fs.temp_dir();
    let parent = &temp;
    let _parent = parent;
    let path = parent.join("test_file");

    write_file(fs, &path, "old contents").unwrap();

    let result = write_file(fs, &path, "new contents");

    assert!(result.is_ok());

    let contents = String::from_utf8(read_file(fs, path).unwrap()).unwrap();

    assert_eq!(&contents, "new contents");
}

#[test]
fn write_file_fails_if_file_is_readonly() {
    let harness = TestFs::new();
    let fs = &harness;
    let temp = fs.temp_dir();
    let parent = &temp;
    let _parent = parent;
    let path = parent.join("test_file");

    create_file(fs, &path, "").unwrap();
    set_readonly(fs, &path, true).unwrap();

    let result = write_file(fs, &path, "test contents");

    assert!(result.is_err());
    assert_eq!(result.unwrap_err().kind(), ErrorKind::PermissionDenied);
}

#[test]
fn write_file_fails_if_node_is_a_directory() {
    let harness = TestFs::new();
    let fs = &harness;
    let temp = fs.temp_dir();
    let parent = &temp;
    let _parent = parent;
    let path = parent.join("test_dir");

    fs.create_dir(&path).unwrap();

    let result = write_file(fs, &path, "test contents");

    assert!(result.is_err());
    assert_eq!(result.unwrap_err().kind(), ErrorKind::Other);
}

#[test]
fn overwrite_file_overwrites_contents_of_existing_file() {
    let harness = TestFs::new();
    let fs = &harness;
    let temp = fs.temp_dir();
    let parent = &temp;
    let _parent = parent;
    let path = parent.join("test_file");

    write_file(fs, &path, "old contents").unwrap();

    let result = overwrite_file(fs, &path, "new contents");

    assert!(result.is_ok());

    let contents = String::from_utf8(read_file(fs, path).unwrap()).unwrap();

    assert_eq!(&contents, "new contents");
}

#[test]
fn overwrite_file_fails_if_node_does_not_exist() {
    let harness = TestFs::new();
    let fs = &harness;
    let temp = fs.temp_dir();
    let parent = &temp;
    let _parent = parent;
    let path = parent.join("new_file");
    let result = overwrite_file(fs, &path, "new contents");

    assert!(result.is_err());
    assert_eq!(result.unwrap_err().kind(), ErrorKind::NotFound);
}

#[test]
fn overwrite_file_fails_if_file_is_readonly() {
    let harness = TestFs::new();
    let fs = &harness;
    let temp = fs.temp_dir();
    let parent = &temp;
    let _parent = parent;
    let path = parent.join("test_file");

    create_file(fs, &path, "").unwrap();
    set_readonly(fs, &path, true).unwrap();

    let result = overwrite_file(fs, &path, "test contents");

    assert!(result.is_err());
    assert_eq!(result.unwrap_err().kind(), ErrorKind::PermissionDenied);
}

#[test]
fn overwrite_file_fails_if_node_is_a_directory() {
    let harness = TestFs::new();
    let fs = &harness;
    let temp = fs.temp_dir();
    let parent = &temp;
    let _parent = parent;
    let path = parent.join("test_dir");

    fs.create_dir(&path).unwrap();

    let result = overwrite_file(fs, &path, "test contents");

    assert!(result.is_err());
    assert_eq!(result.unwrap_err().kind(), ErrorKind::Other);
}

#[test]
fn read_file_returns_contents_as_bytes() {
    let harness = TestFs::new();
    let fs = &harness;
    let temp = fs.temp_dir();
    let parent = &temp;
    let _parent = parent;
    let path = parent.join("test.txt");

    write_file(fs, &path, "test text").unwrap();

    let result = read_file(fs, &path);

    assert!(result.is_ok());
    assert_eq!(result.unwrap(), br"test text");
}

#[test]
fn read_file_fails_if_file_does_not_exist() {
    let harness = TestFs::new();
    let fs = &harness;
    let temp = fs.temp_dir();
    let parent = &temp;
    let _parent = parent;
    let path = parent.join("test.txt");
    let result = read_file(fs, &path);

    assert!(result.is_err());
    assert_eq!(result.unwrap_err().kind(), ErrorKind::NotFound);
}

#[test]
fn read_file_to_string_returns_contents_as_string() {
    let harness = TestFs::new();
    let fs = &harness;
    let temp = fs.temp_dir();
    let parent = &temp;
    let _parent = parent;
    let path = parent.join("test.txt");

    write_file(fs, &path, "test text").unwrap();

    let result = read_file_to_string(fs, &path);

    assert!(result.is_ok());
    assert_eq!(&result.unwrap(), "test text");
}

#[test]
fn read_file_to_string_fails_if_file_does_not_exist() {
    let harness = TestFs::new();
    let fs = &harness;
    let temp = fs.temp_dir();
    let parent = &temp;
    let _parent = parent;
    let path = parent.join("test.txt");
    let result = read_file_to_string(fs, &path);

    assert!(result.is_err());
    assert_eq!(result.unwrap_err().kind(), ErrorKind::NotFound);
}

#[test]
fn read_file_to_string_fails_if_contents_are_not_utf8() {
    let harness = TestFs::new();
    let fs = &harness;
    let temp = fs.temp_dir();
    let parent = &temp;
    let _parent = parent;
    let path = parent.join("test.txt");

    write_file(fs, &path, &[0, 159, 146, 150]).unwrap();

    let result = read_file_to_string(fs, &path);

    assert!(result.is_err());
    assert_eq!(result.unwrap_err().kind(), ErrorKind::InvalidData);
}

#[test]
fn read_file_into_writes_bytes_to_buffer() {
    let harness = TestFs::new();
    let fs = &harness;
    let temp = fs.temp_dir();
    let parent = &temp;
    let _parent = parent;
    let path = parent.join("test.txt");
    let text = "test text";

    write_file(fs, &path, text).unwrap();
    let mut buf = Vec::new();

    let result = read_file_into(fs, &path, &mut buf);

    assert!(result.is_ok());
    assert_eq!(result.unwrap(), text.as_bytes().len());
    assert_eq!(buf, br"test text");
}

#[test]
fn read_file_into_fails_if_file_does_not_exist() {
    let harness = TestFs::new();
    let fs = &harness;
    let temp = fs.temp_dir();
    let parent = &temp;
    let _parent = parent;
    let path = parent.join("test.txt");

    let result = read_file_into(fs, &path, &mut Vec::new());

    assert!(result.is_err());
    assert_eq!(result.unwrap_err().kind(), ErrorKind::NotFound);
}

#[test]
fn open_object_writes_bytes_to_buffer() {
    let harness = TestFs::new();
    let fs = &harness;
    let temp = fs.temp_dir();
    let parent = &temp;
    let _parent = parent;
    let path = parent.join("test.txt");
    let text = "test text";

    write_file(fs, &path, text).unwrap();
    let mut buf = Vec::new();

    let mut reader = fs.open(&path).unwrap();
    let result = reader.read_to_end(&mut buf);

    assert!(result.is_ok());
    assert_eq!(result.unwrap(), text.as_bytes().len());
    assert_eq!(buf, br"test text");
}

#[test]
fn open_object_fails_if_file_does_not_exist() {
    let harness = TestFs::new();
    let fs = &harness;
    let temp = fs.temp_dir();
    let parent = &temp;
    let _parent = parent;
    let path = parent.join("test.txt");

    let result = fs.open(&path);

    assert!(result.is_err());
    assert_eq!(result.unwrap_err().kind(), ErrorKind::NotFound);
}

#[test]
fn create_file_writes_to_new_file() {
    let harness = TestFs::new();
    let fs = &harness;
    let temp = fs.temp_dir();
    let parent = &temp;
    let _parent = parent;
    let path = parent.join("test_file");
    let result = create_file(fs, &path, "new contents");

    assert!(result.is_ok());

    let contents = String::from_utf8(read_file(fs, path).unwrap()).unwrap();

    assert_eq!(&contents, "new contents");
}

#[test]
fn create_file_fails_if_file_already_exists() {
    let harness = TestFs::new();
    let fs = &harness;
    let temp = fs.temp_dir();
    let parent = &temp;
    let _parent = parent;
    let path = parent.join("test_file");

    create_file(fs, &path, "contents").unwrap();

    let result = create_file(fs, &path, "new contents");

    assert!(result.is_err());
    assert_eq!(result.unwrap_err().kind(), ErrorKind::AlreadyExists);
}

#[test]
fn remove_file_removes_a_file() {
    let harness = TestFs::new();
    let fs = &harness;
    let temp = fs.temp_dir();
    let parent = &temp;
    let _parent = parent;
    let path = parent.join("test_file");

    create_file(fs, &path, "").unwrap();

    let result = fs.remove_file(&path);

    assert!(result.is_ok());

    let result = read_file(fs, &path);

    assert!(result.is_err());
    assert_eq!(result.unwrap_err().kind(), ErrorKind::NotFound);
}

#[test]
fn remove_file_fails_if_file_does_not_exist() {
    let harness = TestFs::new();
    let fs = &harness;
    let temp = fs.temp_dir();
    let parent = &temp;
    let _parent = parent;
    let result = fs.remove_file(parent.join("does_not_exist"));

    assert!(result.is_err());
    assert_eq!(result.unwrap_err().kind(), ErrorKind::NotFound);
}

#[test]
fn remove_file_fails_if_node_is_a_directory() {
    let harness = TestFs::new();
    let fs = &harness;
    let temp = fs.temp_dir();
    let parent = &temp;
    let _parent = parent;
    let path = parent.join("test_dir");

    fs.create_dir(&path).unwrap();

    let result = fs.remove_file(&path);

    assert!(result.is_err());
    assert_eq!(result.unwrap_err().kind(), ErrorKind::Other);
}

#[test]
fn copy_file_copies_a_file() {
    let harness = TestFs::new();
    let fs = &harness;
    let temp = fs.temp_dir();
    let parent = &temp;
    let _parent = parent;
    let from = parent.join("from");
    let to = parent.join("to");

    create_file(fs, &from, "test").unwrap();

    let result = fs.copy_file(&from, &to);

    assert!(result.is_ok());

    let result = read_file(fs, &to);

    assert!(result.is_ok());
    assert_eq!(&result.unwrap(), b"test");
}

#[test]
fn copy_file_overwrites_destination_file() {
    let harness = TestFs::new();
    let fs = &harness;
    let temp = fs.temp_dir();
    let parent = &temp;
    let _parent = parent;
    let from = parent.join("from");
    let to = parent.join("to");

    create_file(fs, &from, "expected").unwrap();
    create_file(fs, &to, "should be overwritten").unwrap();

    let result = fs.copy_file(&from, &to);

    assert!(result.is_ok());

    let result = read_file(fs, &to);

    assert!(result.is_ok());
    assert_eq!(result.unwrap(), b"expected");
}

#[test]
fn copy_file_fails_if_original_file_does_not_exist() {
    let harness = TestFs::new();
    let fs = &harness;
    let temp = fs.temp_dir();
    let parent = &temp;
    let _parent = parent;
    let from = parent.join("from");
    let to = parent.join("to");

    let result = fs.copy_file(&from, &to);

    assert!(result.is_err());
    assert_eq!(result.unwrap_err().kind(), ErrorKind::NotFound);
    assert!(!fs.is_file(&to));
}

#[test]
fn copy_file_fails_if_destination_file_is_readonly() {
    let harness = TestFs::new();
    let fs = &harness;
    let temp = fs.temp_dir();
    let parent = &temp;
    let _parent = parent;
    let from = parent.join("from");
    let to = parent.join("to");

    create_file(fs, &from, "test").unwrap();
    create_file(fs, &to, "").unwrap();
    set_readonly(fs, &to, true).unwrap();

    let result = fs.copy_file(&from, &to);

    assert!(result.is_err());
    assert_eq!(result.unwrap_err().kind(), ErrorKind::PermissionDenied);
}

#[test]
fn copy_file_fails_if_original_node_is_directory() {
    let harness = TestFs::new();
    let fs = &harness;
    let temp = fs.temp_dir();
    let parent = &temp;
    let _parent = parent;
    let from = parent.join("from");
    let to = parent.join("to");

    fs.create_dir(&from).unwrap();

    let result = fs.copy_file(&from, &to);

    assert!(result.is_err());
    assert_eq!(result.unwrap_err().kind(), ErrorKind::InvalidInput);
}

#[test]
fn copy_file_fails_if_destination_node_is_directory() {
    let harness = TestFs::new();
    let fs = &harness;
    let temp = fs.temp_dir();
    let parent = &temp;
    let _parent = parent;
    let from = parent.join("from");
    let to = parent.join("to");

    create_file(fs, &from, "").unwrap();
    fs.create_dir(&to).unwrap();

    let result = fs.copy_file(&from, &to);

    assert!(result.is_err());
    assert_eq!(result.unwrap_err().kind(), ErrorKind::Other);
}

#[test]
fn rename_renames_a_file() {
    let harness = TestFs::new();
    let fs = &harness;
    let temp = fs.temp_dir();
    let parent = &temp;
    let _parent = parent;
    let from = parent.join("from");
    let to = parent.join("to");

    create_file(fs, &from, "contents").unwrap();

    let result = fs.rename(&from, &to);

    assert!(result.is_ok());
    assert!(!fs.is_file(&from));

    let result = read_file_to_string(fs, &to);

    assert!(result.is_ok());
    assert_eq!(result.unwrap(), "contents");
}

#[test]
fn rename_renames_a_directory() {
    let harness = TestFs::new();
    let fs = &harness;
    let temp = fs.temp_dir();
    let parent = &temp;
    let _parent = parent;
    let from = parent.join("from");
    let to = parent.join("to");
    let child = from.join("child");

    fs.create_dir(&from).unwrap();
    create_file(fs, &child, "child").unwrap();

    let result = fs.rename(&from, &to);

    assert!(result.is_ok());
    assert!(!fs.is_dir(&from));

    let result = read_file_to_string(fs, to.join("child"));

    assert!(result.is_ok());
    assert_eq!(result.unwrap(), "child");
}

#[test]
fn rename_overwrites_destination_file() {
    let harness = TestFs::new();
    let fs = &harness;
    let temp = fs.temp_dir();
    let parent = &temp;
    let _parent = parent;
    let from = parent.join("from");
    let to = parent.join("to");

    create_file(fs, &from, "from").unwrap();
    create_file(fs, &to, "to").unwrap();

    let result = fs.rename(&from, &to);

    assert!(result.is_ok());
    assert!(!fs.is_file(&from));

    let result = read_file_to_string(fs, &to);

    assert!(result.is_ok());
    assert_eq!(result.unwrap(), "from");
}

#[test]
fn rename_overwrites_empty_destination_directory() {
    let harness = TestFs::new();
    let fs = &harness;
    let temp = fs.temp_dir();
    let parent = &temp;
    let _parent = parent;
    let from = parent.join("from");
    let to = parent.join("to");
    let child = from.join("child");

    fs.create_dir(&from).unwrap();
    fs.create_dir(&to).unwrap();
    create_file(fs, &child, "child").unwrap();

    let result = fs.rename(&from, &to);

    assert!(result.is_ok(), "err: {:?}", result);
    assert!(!fs.is_dir(&from));

    let result = read_file_to_string(fs, to.join("child"));

    assert!(result.is_ok());
    assert_eq!(result.unwrap(), "child");
}

#[test]
fn rename_renames_all_descendants() {
    let harness = TestFs::new();
    let fs = &harness;
    let temp = fs.temp_dir();
    let parent = &temp;
    let _parent = parent;
    let from = parent.join("from");
    let to = parent.join("to");
    let child_file = from.join("child_file");
    let child_dir = from.join("child_dir");
    let grandchild = child_dir.join("grandchild");

    fs.create_dir(&from).unwrap();
    create_file(fs, &child_file, "child_file").unwrap();
    fs.create_dir(&child_dir).unwrap();
    create_file(fs, &grandchild, "grandchild").unwrap();

    let result = fs.rename(&from, &to);

    assert!(result.is_ok());
    assert!(!fs.is_dir(&from));

    let result = read_file_to_string(fs, to.join("child_file"));
    assert!(result.is_ok());
    assert_eq!(result.unwrap(), "child_file");

    let result = read_file_to_string(fs, to.join("child_dir").join("grandchild"));
    assert!(result.is_ok());
    assert_eq!(result.unwrap(), "grandchild");
}

#[test]
fn rename_fails_if_original_path_does_not_exist() {
    let harness = TestFs::new();
    let fs = &harness;
    let temp = fs.temp_dir();
    let parent = &temp;
    let _parent = parent;
    let from = parent.join("from");
    let to = parent.join("to");

    let result = fs.rename(&from, &to);

    assert!(result.is_err());
    assert_eq!(result.unwrap_err().kind(), ErrorKind::NotFound);
}

#[test]
fn rename_fails_if_original_and_destination_are_different_types() {
    let harness = TestFs::new();
    let fs = &harness;
    let temp = fs.temp_dir();
    let parent = &temp;
    let _parent = parent;
    let file = parent.join("file");
    let dir = parent.join("dir");

    create_file(fs, &file, "").unwrap();
    fs.create_dir(&dir).unwrap();

    let result = fs.rename(&file, &dir);

    assert!(result.is_err());
    assert_eq!(result.unwrap_err().kind(), ErrorKind::Other);

    let result = fs.rename(&dir, &file);

    assert!(result.is_err());
    assert_eq!(result.unwrap_err().kind(), ErrorKind::Other);
}

#[test]
fn rename_fails_if_destination_directory_is_not_empty() {
    let harness = TestFs::new();
    let fs = &harness;
    let temp = fs.temp_dir();
    let parent = &temp;
    let _parent = parent;
    let from = parent.join("from");
    let to = parent.join("to");
    let child = to.join("child");

    fs.create_dir(&from).unwrap();
    fs.create_dir(&to).unwrap();
    create_file(fs, &child, "child").unwrap();

    let result = fs.rename(&from, &to);

    assert!(result.is_err());
}

#[test]
fn readonly_returns_write_permission() {
    let harness = TestFs::new();
    let fs = &harness;
    let temp = fs.temp_dir();
    let parent = &temp;
    let _parent = parent;
    let path = parent.join("test_file");

    create_file(fs, &path, "").unwrap();

    let result = readonly(fs, &path);

    assert!(result.is_ok());
    assert!(!result.unwrap());

    set_readonly(fs, &path, true).unwrap();

    let result = readonly(fs, &path);

    assert!(result.is_ok());
    assert!(result.unwrap());
}

#[test]
fn readonly_fails_if_node_does_not_exist() {
    let harness = TestFs::new();
    let fs = &harness;
    let temp = fs.temp_dir();
    let parent = &temp;
    let _parent = parent;
    let result = readonly(fs, parent.join("does_not_exist"));

    assert!(result.is_err());
    assert_eq!(result.unwrap_err().kind(), ErrorKind::NotFound);
}

#[test]
fn set_readonly_toggles_write_permission_of_file() {
    let harness = TestFs::new();
    let fs = &harness;
    let temp = fs.temp_dir();
    let parent = &temp;
    let _parent = parent;
    let path = parent.join("test_file");

    create_file(fs, &path, "").unwrap();

    let result = set_readonly(fs, &path, true);

    assert!(result.is_ok());
    assert!(write_file(fs, &path, "readonly").is_err());

    let result = set_readonly(fs, &path, false);

    assert!(result.is_ok());
    assert!(write_file(fs, &path, "no longer readonly").is_ok());
}

#[test]
fn set_readonly_toggles_write_permission_of_dir() {
    let harness = TestFs::new();
    let fs = &harness;
    let temp = fs.temp_dir();
    let parent = &temp;
    let _parent = parent;
    let path = parent.join("test_dir");

    fs.create_dir(&path).unwrap();

    let result = set_readonly(fs, &path, true);

    assert!(result.is_ok());
    assert!(write_file(fs, &path.join("file"), "").is_err());

    let result = set_readonly(fs, &path, false);

    assert!(result.is_ok());
    assert!(write_file(fs, &path.join("file"), "").is_ok());
}

#[test]
fn set_readonly_fails_if_node_does_not_exist() {
    let harness = TestFs::new();
    let fs = &harness;
    let temp = fs.temp_dir();
    let parent = &temp;
    let _parent = parent;
    let result = set_readonly(fs, parent.join("does_not_exist"), true);

    assert!(result.is_err());
    assert_eq!(result.unwrap_err().kind(), ErrorKind::NotFound);

    let result = set_readonly(fs, parent.join("does_not_exist"), true);

    assert!(result.is_err());
    assert_eq!(result.unwrap_err().kind(), ErrorKind::NotFound);
}

#[test]
fn len_returns_size_of_file() {
    let harness = TestFs::new();
    let fs = &harness;
    let temp = fs.temp_dir();
    let parent = &temp;
    let _parent = parent;
    let path = parent.join("file");
    let result = create_file(fs, &path, "");

    assert!(result.is_ok());

    let len = fs.open(&path).unwrap().metadata().unwrap().len();

    assert_eq!(len, 0);

    let result = write_file(fs, &path, "contents");

    assert!(result.is_ok());

    let len = fs.open(&path).unwrap().metadata().unwrap().len();

    assert_eq!(len, 8);
}

#[test]
fn open_objects_read_independently() {
    let harness = TestFs::new();
    let fs = &harness;
    let temp = fs.temp_dir();
    let parent = &temp;
    let _parent = parent;
    let path = parent.join("test.txt");
    write_file(fs, &path, b"test text").unwrap();

    let mut readers = (fs.open(&path).unwrap(), fs.open(path).unwrap());
    let mut bufs = (vec![], vec![]);
    readers.0.read_to_end(&mut bufs.0).unwrap();
    readers.1.read_to_end(&mut bufs.1).unwrap();
    assert_eq!(bufs.0, b"test text");
    assert_eq!(bufs.1, b"test text");
}

#[test]
fn open_object_cannot_open_dir() {
    let harness = TestFs::new();
    let fs = &harness;
    let temp = fs.temp_dir();
    let parent = &temp;
    let _parent = parent;
    let dir = parent.join("test");
    let reader = fs.open(&dir);
    assert!(reader.is_err());
    assert_eq!(reader.unwrap_err().kind(), ErrorKind::NotFound);
}

#[test]
fn open_object_read_returns_length() {
    let harness = TestFs::new();
    let fs = &harness;
    let temp = fs.temp_dir();
    let parent = &temp;
    let _parent = parent;
    let path = parent.join("test.txt");
    write_file(fs, &path, b"test text").unwrap();
    let mut reader = fs.open(&path).unwrap();

    let mut buf = vec![];
    let result = reader.read_to_end(&mut buf);
    assert!(result.is_ok());
    assert_eq!(result.unwrap(), 9);
}

#[test]
fn open_object_reads_chunked() {
    let harness = TestFs::new();
    let fs = &harness;
    let temp = fs.temp_dir();
    let parent = &temp;
    let _parent = parent;
    let path = parent.join("test.txt");
    write_file(fs, &path, b"test text").unwrap();
    let mut reader = fs.open(&path).unwrap();

    let mut buf = vec![0; 5];
    reader.read_exact(&mut buf).unwrap();
    assert_eq!(buf, b"test ");

    let mut buf = vec![];
    reader.read_to_end(&mut buf).unwrap();
    assert_eq!(buf, b"text");
}

#[test]
fn open_object_reads_ok_after_file_deleted() {
    let harness = TestFs::new();
    let fs = &harness;
    let temp = fs.temp_dir();
    let parent = &temp;
    let _parent = parent;
    let path = parent.join("test.txt");
    write_file(fs, &path, b"test text").unwrap();
    let mut reader = fs.open(&path).unwrap();
    fs.remove_file(&path).unwrap();
    // verify file is really gone
    let result = read_file(fs, &path);
    assert!(result.is_err());
    // check that reader can still read it
    let mut buf = vec![];
    reader.read_to_end(&mut buf).unwrap();
    assert_eq!(buf, b"test text");
}

#[test]
fn open_object_reads_ok_after_file_overwritten() {
    let harness = TestFs::new();
    let fs = &harness;
    let temp = fs.temp_dir();
    let parent = &temp;
    let _parent = parent;
    let path = parent.join("test.txt");
    write_file(fs, &path, b"test text").unwrap();
    let mut reader = fs.open(&path).unwrap();
    fs.remove_file(&path).unwrap();
    write_file(fs, &path, b"the quick brown fox").unwrap();
    // check that reader still sees the old contents
    let mut buf = vec![];
    reader.read_to_end(&mut buf).unwrap();
    assert_eq!(buf, b"test text");
}

#[test]
fn open_object_reads_ok_after_parent_dir_deleted() {
    let harness = TestFs::new();
    let fs = &harness;
    let temp = fs.temp_dir();
    let parent = &temp;
    let _parent = parent;
    let dir = parent.join("test");
    fs.create_dir(&dir).unwrap();
    let path = dir.join("test.txt");
    write_file(fs, &path, b"test text").unwrap();
    let mut reader = fs.open(&path).unwrap();
    fs.remove_dir_all(&dir).unwrap();
    // verify file is really gone
    let result = read_file(fs, &path);
    assert!(result.is_err());
    // check that reader can still read it
    let mut buf = vec![];
    reader.read_to_end(&mut buf).unwrap();
    assert_eq!(buf, b"test text");
}

#[test]
fn open_object_reads_ok_after_file_renamed() {
    let harness = TestFs::new();
    let fs = &harness;
    let temp = fs.temp_dir();
    let parent = &temp;
    let _parent = parent;
    let path = parent.join("test.txt");
    write_file(fs, &path, b"test text").unwrap();
    let mut reader = fs.open(&path).unwrap();
    let renamed_path = parent.join("test.html");
    fs.rename(&path, &renamed_path).unwrap();
    // verify file is really renamed
    let result = read_file(fs, &path);
    assert!(result.is_err());
    let result = read_file(fs, &renamed_path);
    assert!(result.is_ok());
    // check that reader can still read it with the reader
    let mut buf = vec![];
    reader.read_to_end(&mut buf).unwrap();
    assert_eq!(buf, b"test text");
}

#[test]
fn open_object_reads_ok_after_parent_dir_renamed() {
    let harness = TestFs::new();
    let fs = &harness;
    let temp = fs.temp_dir();
    let parent = &temp;
    let _parent = parent;
    let dir = parent.join("test");
    fs.create_dir(&dir).unwrap();
    let path = dir.join("test.txt");
    write_file(fs, &path, b"test text").unwrap();
    let mut reader = fs.open(&path).unwrap();
    let renamed_dir = parent.join("test2");
    fs.rename(&dir, &renamed_dir).unwrap();
    // verify file is really gone
    let result = read_file(fs, &path);
    assert!(result.is_err());
    // check that reader can still read it
    let mut buf = vec![];
    reader.read_to_end(&mut buf).unwrap();
    assert_eq!(buf, b"test text");
}

#[test]
fn open_object_reads_ok_after_parent_dir_moved() {
    let harness = TestFs::new();
    let fs = &harness;
    let temp = fs.temp_dir();
    let parent = &temp;
    let _parent = parent;
    // parent |-> test1 -> test.txt
    //        |-> test2
    // after moving test1:
    // parent |-> test2 -> test1 -> test.txt
    //
    let dir1 = parent.join("test1");
    let dir2 = parent.join("test2");
    let path = dir1.join("test.txt");
    fs.create_dir(&dir1).unwrap();
    fs.create_dir(&dir2).unwrap();
    write_file(fs, &path, b"test text").unwrap();
    let mut reader = fs.open(&path).unwrap();

    fs.rename(&dir1, dir2.join("test1")).unwrap();
    // verify that original file is gone
    let result = read_file(fs, path);
    assert!(result.is_err());
    // check that reader can still read the file
    let mut buf = vec![];
    reader.read_to_end(&mut buf).unwrap();
    assert_eq!(buf, b"test text");
}

#[test]
fn open_object_reads_ok_beyond_eof() {
    let harness = TestFs::new();
    let fs = &harness;
    let temp = fs.temp_dir();
    let parent = &temp;
    let _parent = parent;
    let path = parent.join("test.txt");
    write_file(fs, &path, b"the quick brown fox").unwrap();
    let mut reader = fs.open(&path).unwrap();
    let mut buf = vec![];
    reader.read_to_end(&mut buf).unwrap();

    let result = reader.read_to_end(&mut buf);
    assert!(result.is_ok());
    assert_eq!(result.unwrap(), 0);
}

#[test]
fn open_object_reads_ok_after_file_updated() {
    let harness = TestFs::new();
    let fs = &harness;
    let temp = fs.temp_dir();
    let parent = &temp;
    let _parent = parent;
    let path = parent.join("test.txt");
    write_file(fs, &path, b"test text").unwrap();
    let mut reader = fs.open(&path).unwrap();
    let mut buf = vec![0; 5];
    reader.read_exact(&mut buf).unwrap();
    assert_eq!(buf, b"test ");

    write_file(fs, &path, "the quick brown fox").unwrap();
    let mut buf = vec![];
    reader.read_to_end(&mut buf).unwrap();
    assert_eq!(buf, b"uick brown fox");
}

#[test]
fn open_object_reads_ok_after_file_shrunk() {
    let harness = TestFs::new();
    let fs = &harness;
    let temp = fs.temp_dir();
    let parent = &temp;
    let _parent = parent;
    let path = parent.join("test.txt");
    write_file(fs, &path, b"the quick brown fox").unwrap();
    let mut reader = fs.open(&path).unwrap();
    let mut buf = vec![0; 10];
    reader.read_exact(&mut buf).unwrap();
    assert_eq!(buf, b"the quick ");

    write_file(fs, &path, "test").unwrap();
    let mut buf = vec![];
    reader.read_to_end(&mut buf).unwrap();
    assert_eq!(buf, b"");
}

#[test]
fn open_object_can_seek_from_start_then_read() {
    let harness = TestFs::new();
    let fs = &harness;
    let temp = fs.temp_dir();
    let parent = &temp;
    let _parent = parent;
    let path = parent.join("test.txt");
    write_file(fs, &path, b"the quick brown fox").unwrap();
    let mut reader = fs.open(&path).unwrap();

    let result = reader.seek(SeekFrom::Start(5));
    assert!(result.is_ok());
    assert_eq!(result.unwrap(), 5);

    let result = reader.seek(SeekFrom::Start(5));
    assert!(result.is_ok());
    assert_eq!(result.unwrap(), 5);

    let mut buf = vec![];
    reader.read_to_end(&mut buf).unwrap();
    assert_eq!(buf, b"uick brown fox");
}

#[test]
fn open_object_can_seek_from_current_then_read() {
    let harness = TestFs::new();
    let fs = &harness;
    let temp = fs.temp_dir();
    let parent = &temp;
    let _parent = parent;
    let path = parent.join("test.txt");
    write_file(fs, &path, b"the quick brown fox").unwrap();
    let mut reader = fs.open(&path).unwrap();

    let result = reader.seek(SeekFrom::Current(5));
    assert!(result.is_ok());
    assert_eq!(result.unwrap(), 5);

    let result = reader.seek(SeekFrom::Current(5));
    assert!(result.is_ok());
    assert_eq!(result.unwrap(), 10);

    let mut buf = vec![];
    reader.read_to_end(&mut buf).unwrap();
    assert_eq!(buf, b"brown fox");
}

#[test]
fn open_object_can_seek_from_end_then_read() {
    let harness = TestFs::new();
    let fs = &harness;
    let temp = fs.temp_dir();
    let parent = &temp;
    let _parent = parent;
    let path = parent.join("test.txt");
    let msg = b"the quick brown fox";
    write_file(fs, &path, msg).unwrap();
    let mut reader = fs.open(&path).unwrap();

    let result = reader.seek(SeekFrom::End(-5));
    assert!(result.is_ok());
    assert_eq!(result.unwrap() as usize, msg.len() - 5);

    let result = reader.seek(SeekFrom::End(-5));
    assert!(result.is_ok());
    assert_eq!(result.unwrap() as usize, msg.len() - 5);

    let mut buf = vec![];
    reader.read_to_end(&mut buf).unwrap();
    assert_eq!(buf, b"n fox");
}

#[test]
fn open_object_fails_if_seeks_before_byte_0() {
    let harness = TestFs::new();
    let fs = &harness;
    let temp = fs.temp_dir();
    let parent = &temp;
    let _parent = parent;
    let path = parent.join("test.txt");
    write_file(fs, &path, b"the quick brown fox").unwrap();
    let mut reader = fs.open(&path).unwrap();

    reader.seek(SeekFrom::Start(5)).unwrap();

    let result = reader.seek(SeekFrom::Current(-55));
    assert!(result.is_err());
    assert_eq!(result.unwrap_err().kind(), ErrorKind::InvalidInput);

    // verify that the error did not change the position
    let current_pos = reader.seek(SeekFrom::Current(0)).unwrap();
    assert_eq!(current_pos, 5);
}

#[test]
fn open_object_can_seek_and_read_beyond_eof() {
    let harness = TestFs::new();
    let fs = &harness;
    let temp = fs.temp_dir();
    let parent = &temp;
    let _parent = parent;
    let path = parent.join("test.txt");
    write_file(fs, &path, b"the quick brown fox").unwrap();
    let mut reader = fs.open(&path).unwrap();

    let result = reader.seek(SeekFrom::Current(55));
    assert!(result.is_ok());
    assert_eq!(result.unwrap(), 55);

    let mut buf = vec![];
    let result = reader.read_to_end(&mut buf);
    assert!(result.is_ok());
    assert_eq!(result.unwrap(), 0);
}

#[test]
fn create_objects_write_independently() {
    let harness = TestFs::new();
    let fs = &harness;
    let temp = fs.temp_dir();
    let parent = &temp;
    let _parent = parent;
    let path = parent.join("test.txt");

    let mut writers = (fs.create(&path).unwrap(), fs.create(&path).unwrap());
    let buf = b"the quick brown fox";
    writers.0.write_all(buf).unwrap();
    let read_buf1 = read_file(fs, &path).unwrap();
    writers.1.write_all(buf).unwrap();
    let read_buf2 = read_file(fs, &path).unwrap();
    assert_eq!(read_buf1, read_buf2);
}

#[test]
fn create_object_cannot_overwrite_dir() {
    let harness = TestFs::new();
    let fs = &harness;
    let temp = fs.temp_dir();
    let parent = &temp;
    let _parent = parent;
    let dir = parent.join("test");
    fs.create_dir(&dir).unwrap();
    let writer = fs.create(&dir);
    assert!(writer.is_err());
    assert_eq!(writer.unwrap_err().kind(), ErrorKind::Other);
}

#[test]
fn create_object_writes_chunked() {
    let harness = TestFs::new();
    let fs = &harness;
    let temp = fs.temp_dir();
    let parent = &temp;
    let _parent = parent;
    let path = parent.join("test.txt");
    let mut writer = fs.create(&path).unwrap();
    writer.write_all(b"test").unwrap();
    writer.write_all(b" text").unwrap();
    let contents = read_file(fs, &path).unwrap();
    assert_eq!(contents, b"test text");
}

#[test]
fn create_object_writes_ok_beyond_eof() {
    let harness = TestFs::new();
    let fs = &harness;
    let temp = fs.temp_dir();
    let parent = &temp;
    let _parent = parent;
    let path = parent.join("test.txt");
    let mut writer = fs.create(&path).unwrap();
    writer.write_all(b"test text").unwrap();

    write_file(fs, &path, b"").unwrap();
    writer.write_all(b"test text").unwrap();
    let buf = read_file(fs, &path).unwrap();
    assert_eq!(buf, b"\0\0\0\0\0\0\0\0\0test text");
}

#[test]
fn create_object_writes_ok_after_file_deleted() {
    let harness = TestFs::new();
    let fs = &harness;
    let temp = fs.temp_dir();
    let parent = &temp;
    let _parent = parent;
    let path = parent.join("test.txt");
    let mut writer = fs.create(&path).unwrap();
    writer.write_all(b"test text").unwrap();

    fs.remove_file(&path).unwrap();
    let result = writer.write_all(b"test text");
    assert!(result.is_ok());
}

#[test]
fn create_object_writes_ok_after_file_overwritten() {
    let harness = TestFs::new();
    let fs = &harness;
    let temp = fs.temp_dir();
    let parent = &temp;
    let _parent = parent;
    let path = parent.join("test.txt");
    let mut writer = fs.create(&path).unwrap();
    writer.write_all(b"test text").unwrap();

    write_file(fs, &path, b"the quick brown fox").unwrap();
    let result = writer.write_all(b"test text");
    assert!(result.is_ok());
}

#[test]
fn create_object_writes_ok_after_parent_dir_deleted() {
    let harness = TestFs::new();
    let fs = &harness;
    let temp = fs.temp_dir();
    let parent = &temp;
    let _parent = parent;
    let dir = parent.join("test");
    let path = dir.join("test.txt");
    fs.create_dir(&dir).unwrap();
    let mut writer = fs.create(&path).unwrap();
    writer.write_all(b"test text").unwrap();

    fs.remove_dir_all(&dir).unwrap();
    let result = writer.write_all(b"test text");
    assert!(result.is_ok());
}

#[test]
fn create_object_writes_ok_after_file_renamed() {
    let harness = TestFs::new();
    let fs = &harness;
    let temp = fs.temp_dir();
    let parent = &temp;
    let _parent = parent;
    let path = parent.join("test.txt");
    let renamed_path = parent.join("test.html");
    let mut writer = fs.create(&path).unwrap();
    writer.write_all(b"test text").unwrap();

    fs.rename(&path, &renamed_path).unwrap();
    let result = writer.write_all(b"test text");
    assert!(result.is_ok());

    let contents = read_file(fs, &renamed_path).unwrap();
    assert_eq!(contents, b"test texttest text");
}

#[test]
fn create_object_writes_ok_after_parent_dir_renamed() {
    let harness = TestFs::new();
    let fs = &harness;
    let temp = fs.temp_dir();
    let parent = &temp;
    let _parent = parent;
    let dir = parent.join("test");
    let renamed_dir = parent.join("test2");
    fs.create_dir(&dir).unwrap();
    let path = dir.join("test.txt");
    let mut writer = fs.create(&path).unwrap();
    writer.write_all(b"test text").unwrap();

    fs.rename(&dir, &renamed_dir).unwrap();
    let result = writer.write_all(b"test text");
    assert!(result.is_ok());

    let contents = read_file(fs, renamed_dir.join("test.txt")).unwrap();
    assert_eq!(contents, b"test texttest text");
}

#[test]
fn create_object_writes_ok_after_parent_dir_moved() {
    let harness = TestFs::new();
    let fs = &harness;
    let temp = fs.temp_dir();
    let parent = &temp;
    let _parent = parent;
    // parent |-> test1 -> test.txt
    //        |-> test2
    // after moving test1:
    // parent |-> test2 -> test1 -> test.txt
    //
    let dir1 = parent.join("test1");
    let dir2 = parent.join("test2");
    let path = dir1.join("test.txt");
    fs.create_dir(&dir1).unwrap();
    fs.create_dir(&dir2).unwrap();
    let mut writer = fs.create(&path).unwrap();
    writer.write_all(b"test text").unwrap();

    let new_root = dir2.join("test1");
    fs.rename(&dir1, &new_root).unwrap();
    let result = writer.write_all(b"test text");
    assert!(result.is_ok());

    let contents = read_file(fs, new_root.join("test.txt")).unwrap();
    assert_eq!(contents, b"test texttest text");
}

#[test]
fn create_object_writes_ok_after_file_updated_long() {
    let harness = TestFs::new();
    let fs = &harness;
    let temp = fs.temp_dir();
    let parent = &temp;
    let _parent = parent;
    let path = parent.join("test.txt");
    let mut writer = fs.create(&path).unwrap();
    writer.write_all(b"test text").unwrap();

    write_file(fs, &path, b"the quick brown fox").unwrap();
    let result = writer.write_all(b"test text");
    assert!(result.is_ok());

    let contents = read_file(fs, &path).unwrap();
    assert_eq!(contents, b"the quicktest textx");
}

#[test]
fn create_object_writes_ok_after_file_updated_short() {
    let harness = TestFs::new();
    let fs = &harness;
    let temp = fs.temp_dir();
    let parent = &temp;
    let _parent = parent;
    let path = parent.join("test.txt");
    let mut writer = fs.create(&path).unwrap();
    writer.write_all(b"test text").unwrap();

    write_file(fs, &path, b"the quick brown").unwrap();
    let result = writer.write_all(b"test text");
    assert!(result.is_ok());

    let contents = read_file(fs, &path).unwrap();
    assert_eq!(contents, b"the quicktest text");
}

#[test]
fn create_object_writes_ok_after_file_shrunk() {
    let harness = TestFs::new();
    let fs = &harness;
    let temp = fs.temp_dir();
    let parent = &temp;
    let _parent = parent;
    let path = parent.join("test.txt");
    let mut writer = fs.create(&path).unwrap();
    writer.write_all(b"test text").unwrap();

    write_file(fs, &path, b"hello").unwrap();
    let result = writer.write_all(b"test text");
    assert!(result.is_ok());

    let contents = read_file(fs, &path).unwrap();
    assert_eq!(contents, b"hello\0\0\0\0test text");
}

#[test]
fn create_object_can_seek_then_overwrite() {
    let harness = TestFs::new();
    let fs = &harness;
    let temp = fs.temp_dir();
    let parent = &temp;
    let _parent = parent;
    let path = parent.join("test.txt");
    let mut writer = fs.create(&path).unwrap();
    writer.write_all(b"the quick brown fox").unwrap();

    writer.seek(SeekFrom::Start(5)).unwrap();
    let cur = writer.seek(SeekFrom::Current(0)).unwrap();
    assert_eq!(cur, 5);

    let result = writer.write_all(b"hello");
    assert!(result.is_ok());

    let buf = read_file(fs, &path).unwrap();
    assert_eq!(buf, b"the qhellobrown fox");
}

#[test]
fn create_object_can_seek_then_overwrite_and_extend() {
    let harness = TestFs::new();
    let fs = &harness;
    let temp = fs.temp_dir();
    let parent = &temp;
    let _parent = parent;
    let path = parent.join("test.txt");
    let mut writer = fs.create(&path).unwrap();
    writer.write_all(b"test text").unwrap();

    writer.seek(SeekFrom::Start(5)).unwrap();
    let cur = writer.seek(SeekFrom::Current(0)).unwrap();
    assert_eq!(cur, 5);

    let result = writer.write_all(b"the quick brown fox");
    assert!(result.is_ok());

    let buf = read_file(fs, &path).unwrap();
    assert_eq!(buf, b"test the quick brown fox");
}

#[test]
fn create_object_can_seek_then_extend() {
    let harness = TestFs::new();
    let fs = &harness;
    let temp = fs.temp_dir();
    let parent = &temp;
    let _parent = parent;
    let path = parent.join("test.txt");
    let mut writer = fs.create(&path).unwrap();
    writer.write_all(b"test text").unwrap();

    writer.seek(SeekFrom::Start(12)).unwrap();
    let cur = writer.seek(SeekFrom::Current(0)).unwrap();
    assert_eq!(cur, 12);

    let result = writer.write_all(b"test");
    assert!(result.is_ok());

    let buf = read_file(fs, &path).unwrap();
    assert_eq!(buf, b"test text\0\0\0test");
}

#[test]
fn open_object_cannot_write() {
    let harness = TestFs::new();
    let fs = &harness;
    let temp = fs.temp_dir();
    let parent = &temp;
    let _parent = parent;
    let path = parent.join("test.txt");
    create_file(fs, &path, vec![]).unwrap();

    let mut reader = fs.open(&path).unwrap();
    let result = reader.write(b"the quick brown fox");
    assert!(result.is_err());
    assert_eq!(result.unwrap_err().kind(), ErrorKind::Other);
}

#[test]
fn create_object_cannot_read() {
    let harness = TestFs::new();
    let fs = &harness;
    let temp = fs.temp_dir();
    let parent = &temp;
    let _parent = parent;
    let path = parent.join("test.txt");

    let mut writer = fs.create(&path).unwrap();
    let mut buf = vec![];
    let result = writer.read_to_end(&mut buf);
    assert!(result.is_err());
    assert_eq!(result.unwrap_err().kind(), ErrorKind::Other);
}

#[test]
fn set_len_on_create_object_truncates_file() {
    let harness = TestFs::new();
    let fs = &harness;
    let temp = fs.temp_dir();
    let parent = &temp;
    let _parent = parent;
    let path = parent.join("test.txt");
    let writer = fs.create(&path).unwrap();
    write_file(fs, &path, b"test text").unwrap();

    let result = writer.set_len(4);
    assert!(result.is_ok());

    let contents = read_file(fs, &path).unwrap();
    assert_eq!(contents, b"test");
}

#[test]
fn set_len_on_create_object_extends_file() {
    let harness = TestFs::new();
    let fs = &harness;
    let temp = fs.temp_dir();
    let parent = &temp;
    let _parent = parent;
    let path = parent.join("test.txt");
    let writer = fs.create(&path).unwrap();
    write_file(fs, &path, b"test").unwrap();

    let result = writer.set_len(9);
    assert!(result.is_ok());

    let contents = read_file(fs, &path).unwrap();
    assert_eq!(contents, b"test\0\0\0\0\0");
}

#[test]
fn set_len_on_create_object_doesnt_change_cursor() {
    let harness = TestFs::new();
    let fs = &harness;
    let temp = fs.temp_dir();
    let parent = &temp;
    let _parent = parent;
    let path = parent.join("test.txt");
    let mut writer = fs.create(&path).unwrap();
    write_file(fs, &path, b"test").unwrap();

    let result = writer.set_len(9);
    assert!(result.is_ok());

    let pos = writer.seek(SeekFrom::Current(0)).unwrap();
    assert_eq!(pos, 0);
}

#[test]
fn fs_dir_metadata_is_dir() {
    let harness = TestFs::new();
    let fs = &harness;
    let temp = fs.temp_dir();
    let parent = &temp;
    let _parent = parent;
    let path = parent.join("test");
    fs.create_dir(&path).unwrap();

    let md = fs.metadata(&path).unwrap();
    assert!(!md.is_file());
    assert!(md.is_dir());
}

#[test]
fn fs_dir_metadata_has_correct_len() {
    let harness = TestFs::new();
    let fs = &harness;
    let temp = fs.temp_dir();
    let parent = &temp;
    let _parent = parent;
    let path = parent.join("test.txt");
    fs.create_dir(&path).unwrap();

    let md = fs.metadata(&path).unwrap();
    // to keep things portable, don't test for a particular value
    assert_ne!(md.len(), 0);
}

#[test]
fn fs_file_metadata_is_file() {
    let harness = TestFs::new();
    let fs = &harness;
    let temp = fs.temp_dir();
    let parent = &temp;
    let _parent = parent;
    let path = parent.join("test.txt");
    write_file(fs, &path, b"test text").unwrap();

    let md = fs.metadata(&path).unwrap();
    assert!(md.is_file());
    assert!(!md.is_dir());
}

#[test]
fn fs_file_metadata_has_correct_len() {
    let harness = TestFs::new();
    let fs = &harness;
    let temp = fs.temp_dir();
    let parent = &temp;
    let _parent = parent;
    let path = parent.join("test.txt");
    write_file(fs, &path, b"test text").unwrap();

    let md = fs.metadata(&path).unwrap();
    assert_eq!(md.len(), 9);
}

#[test]
fn fs_file_metadata_len_is_immutable() {
    let harness = TestFs::new();
    let fs = &harness;
    let temp = fs.temp_dir();
    let parent = &temp;
    let _parent = parent;
    let path = parent.join("test.txt");
    write_file(fs, &path, b"test text").unwrap();
    let md = fs.metadata(&path).unwrap();

    assert_eq!(md.len(), 9);

    write_file(fs, &path, b"hi").unwrap();
    assert_eq!(md.len(), 9);
}

#[test]
fn fs_file_metadata_fails_if_file_doesn_exist() {
    let harness = TestFs::new();
    let fs = &harness;
    let temp = fs.temp_dir();
    let parent = &temp;
    let _parent = parent;
    let path = parent.join("does_not_exist");
    let result = fs.metadata(&path);

    assert!(result.is_err());
    assert_eq!(result.unwrap_err().kind(), ErrorKind::NotFound);
}

#[test]
fn open_object_metadata_is_file() {
    let harness = TestFs::new();
    let fs = &harness;
    let temp = fs.temp_dir();
    let parent = &temp;
    let _parent = parent;
    let path = parent.join("test.txt");
    write_file(fs, &path, b"test text").unwrap();
    let reader = fs.open(&path).unwrap();

    let md = reader.metadata().unwrap();
    assert!(md.is_file());
    assert!(!md.is_dir());
}

#[test]
fn open_object_metadata_has_correct_len() {
    let harness = TestFs::new();
    let fs = &harness;
    let temp = fs.temp_dir();
    let parent = &temp;
    let _parent = parent;
    let path = parent.join("test.txt");
    write_file(fs, &path, b"test text").unwrap();
    let reader = fs.open(&path).unwrap();

    let md = reader.metadata().unwrap();
    assert_eq!(md.len(), 9);
}

#[test]
fn open_object_metadata_len_is_immutable() {
    let harness = TestFs::new();
    let fs = &harness;
    let temp = fs.temp_dir();
    let parent = &temp;
    let _parent = parent;
    let path = parent.join("test.txt");
    write_file(fs, &path, b"test text").unwrap();
    let reader = fs.open(&path).unwrap();
    let md = reader.metadata().unwrap();

    assert_eq!(md.len(), 9);

    write_file(fs, &path, b"hi").unwrap();
    assert_eq!(md.len(), 9);
}

#[test]
fn create_object_metadata_is_file() {
    let harness = TestFs::new();
    let fs = &harness;
    let temp = fs.temp_dir();
    let parent = &temp;
    let _parent = parent;
    let path = parent.join("test.txt");
    let writer = fs.create(&path).unwrap();

    let md = writer.metadata().unwrap();
    assert!(md.is_file());
    assert!(!md.is_dir());
}

#[test]
fn create_object_metadata_has_correct_len() {
    let harness = TestFs::new();
    let fs = &harness;
    let temp = fs.temp_dir();
    let parent = &temp;
    let _parent = parent;
    let path = parent.join("test.txt");
    let mut writer = fs.create(&path).unwrap();
    writer.write_all(b"test text").unwrap();

    let md = writer.metadata().unwrap();
    assert_eq!(md.len(), 9);
}

#[test]
fn create_object_metadata_len_is_immutable() {
    let harness = TestFs::new();
    let fs = &harness;
    let temp = fs.temp_dir();
    let parent = &temp;
    let _parent = parent;
    let path = parent.join("test.txt");
    let mut writer = fs.create(&path).unwrap();
    writer.write_all(b"test text").unwrap();
    let md = writer.metadata().unwrap();

    assert_eq!(md.len(), 9);

    writer.write_all(b"hi").unwrap();
    assert_eq!(md.len(), 9);
}

#[test]
fn writable_object_does_not_create_file() {
    let harness = TestFs::new();
    let fs = &harness;
    let temp = fs.temp_dir();
    let parent = &temp;
    let _parent = parent;
    let path = parent.join("test.txt");
    let result = open_writable(fs, &path);
    assert!(result.is_err());
    assert_eq!(result.unwrap_err().kind(), ErrorKind::NotFound);
}

#[test]
fn writable_object_sets_cursor_to_beginning() {
    let harness = TestFs::new();
    let fs = &harness;
    let temp = fs.temp_dir();
    let parent = &temp;
    let _parent = parent;
    let path = parent.join("test.txt");
    write_file(fs, &path, b"test text").unwrap();
    let mut writer = open_writable(fs, &path).unwrap();
    let pos = writer.seek(SeekFrom::Current(0)).unwrap();
    assert_eq!(pos, 0);
}

#[test]
fn writable_object_allows_append() {
    let harness = TestFs::new();
    let fs = &harness;
    let temp = fs.temp_dir();
    let parent = &temp;
    let _parent = parent;
    let path = parent.join("test.txt");
    write_file(fs, &path, b"test text").unwrap();
    let mut writer = open_writable(fs, &path).unwrap();
    writer.seek(SeekFrom::End(0)).unwrap();

    writer.write_all(b"hello").unwrap();

    let contents = read_file(fs, &path).unwrap();
    assert_eq!(contents, b"test texthello");
}

#[test]
fn writable_object_truncates() {
    let harness = TestFs::new();
    let fs = &harness;
    let temp = fs.temp_dir();
    let parent = &temp;
    let _parent = parent;
    let path = parent.join("test.txt");
    write_file(fs, &path, b"test text").unwrap();
    let mut writer = open_writable(fs, &path).unwrap();
    writer.seek(SeekFrom::End(-4)).unwrap();

    writer.write_all(b"hello").unwrap();

    let contents = read_file(fs, &path).unwrap();
    assert_eq!(String::from_utf8(contents).unwrap(), "test hello");
}

#[test]
fn writable_object_allows_write_short() {
    let harness = TestFs::new();
    let fs = &harness;
    let temp = fs.temp_dir();
    let parent = &temp;
    let _parent = parent;
    let path = parent.join("test.txt");
    write_file(fs, &path, b"test text").unwrap();
    let mut writer = open_writable(fs, &path).unwrap();

    writer.write_all(b"hello").unwrap();

    let contents = read_file(fs, &path).unwrap();
    assert_eq!(contents, b"hellotext");
}

#[test]
fn writable_object_allows_write_long() {
    let harness = TestFs::new();
    let fs = &harness;
    let temp = fs.temp_dir();
    let parent = &temp;
    let _parent = parent;
    let path = parent.join("test.txt");
    write_file(fs, &path, b"test text").unwrap();
    let mut writer = open_writable(fs, &path).unwrap();

    writer.write_all(b"the quick brown fox").unwrap();

    let contents = read_file(fs, &path).unwrap();
    assert_eq!(contents, b"the quick brown fox");
}

#[test]
fn writable_object_extends_file() {
    let harness = TestFs::new();
    let fs = &harness;
    let temp = fs.temp_dir();
    let parent = &temp;
    let _parent = parent;
    let path = parent.join("test.txt");
    write_file(fs, &path, b"test text").unwrap();
    let mut writer = open_writable(fs, &path).unwrap();

    writer.seek(SeekFrom::Start(12)).unwrap();
    writer.write_all(b"hi").unwrap();

    let contents = read_file(fs, &path).unwrap();
    assert_eq!(contents, b"test text\0\0\0hi");
}

#[test]
fn canonicalize_ok_if_file_exists() {
    let harness = TestFs::new();
    let fs = &harness;
    let temp = fs.temp_dir();
    let parent = &temp;
    let _parent = parent;
    let path = parent.join("test.txt");
    write_file(fs, &path, "test.txt").unwrap();
    let result = fs.canonicalize(&path);
    assert!(result.is_ok());
    assert_eq!(result.unwrap(), path);
}

#[test]
fn canonicalize_ok_if_root() {
    let harness = TestFs::new();
    let fs = &harness;
    let temp = fs.temp_dir();
    let parent = &temp;
    let _parent = parent;
    let path = TestPath::from("/");
    let result = fs.canonicalize(&path);
    assert!(result.is_ok());
    assert_eq!(result.unwrap(), path);
}

#[test]
fn canonicalize_fails_if_empty() {
    let harness = TestFs::new();
    let fs = &harness;
    let temp = fs.temp_dir();
    let parent = &temp;
    let _parent = parent;
    let path = TestPath::from("");
    let result = fs.canonicalize(&path);
    assert!(result.is_err());
    assert_eq!(result.unwrap_err().kind(), ErrorKind::NotFound);
}

#[test]
fn canonicalize_dot_is_current_dir() {
    let harness = TestFs::new();
    let fs = &harness;
    let temp = fs.temp_dir();
    let parent = &temp;
    let _parent = parent;
    let path = TestPath::from(".");
    let result = fs.canonicalize(&path);
    assert!(result.is_ok());
    assert_eq!(result.unwrap(), fs.current_dir().unwrap());
}

#[test]
fn canonicalize_ok_if_relative_path() {
    let harness = TestFs::new();
    let fs = &harness;
    let temp = fs.temp_dir();
    let parent = &temp;
    let _parent = parent;
    let save_current_dir = fs.current_dir().unwrap();

    fs.set_current_dir(&parent).unwrap();
    let result = fs.canonicalize(&TestPath::from("."));
    assert!(result.is_ok());
    assert_eq!(result.unwrap(), parent);

    fs.set_current_dir(save_current_dir).unwrap();
}

#[test]
fn canonicalize_ok_if_path_ends_in_dotdot() {
    let harness = TestFs::new();
    let fs = &harness;
    let temp = fs.temp_dir();
    let parent = &temp;
    let _parent = parent;
    let dir = parent.join("test");
    fs.create_dir(&dir).unwrap();

    let dotdot = dir.join("..");
    let result = fs.canonicalize(&dotdot);
    assert!(result.is_ok());
    assert_eq!(result.unwrap(), parent);
}

#[test]
fn canonicalize_fails_if_file_doesnt_exist() {
    let harness = TestFs::new();
    let fs = &harness;
    let temp = fs.temp_dir();
    let parent = &temp;
    let _parent = parent;
    let path = parent.join("test.txt");
    let result = fs.canonicalize(&path);
    assert!(result.is_err());
}

#[test]
fn canonicalize_ok_with_dotdot_if_paths_exist() {
    let harness = TestFs::new();
    let fs = &harness;
    let temp = fs.temp_dir();
    let parent = &temp;
    let _parent = parent;
    let dir = parent.join("test");
    fs.create_dir(&dir).unwrap();
    let path = dir.join("test.txt");
    write_file(fs, &path, "test text").unwrap();

    let dotdot = dir.join("..").join("test").join("test.txt");
    let result = fs.canonicalize(&dotdot);
    assert!(result.is_ok());
    assert_eq!(result.unwrap(), path);
}

#[test]
fn canonicalize_fails_with_dotdot_if_path_doesnt_exist() {
    let harness = TestFs::new();
    let fs = &harness;
    let temp = fs.temp_dir();
    let parent = &temp;
    let _parent = parent;
    let dir = parent.join("test");
    fs.create_dir(&dir).unwrap();
    let path = dir.join("test.txt");
    write_file(fs, &path, "test text").unwrap();

    let dotdot = dir.join("does_not_exist").join("..").join("test.txt");
    let result = fs.canonicalize(&dotdot);
    assert!(result.is_err());
}

#[test]
fn canonicalize_cant_go_lower_than_root() {
    let harness = TestFs::new();
    let fs = &harness;
    let temp = fs.temp_dir();
    let parent = &temp;
    let _parent = parent;
    let num_dirs = parent.0.split('/').filter(|name| !name.is_empty()).count() + 1;
    let dotdot_root = TestPath(vec![".."; num_dirs * 2].join("/"));
    let root = TestPath::from("/");
    let result = fs.canonicalize(&dotdot_root);
    assert!(result.is_ok());
    assert_eq!(result.unwrap(), root);
}

#[test]
fn canonicalize_fails_if_subpath_is_file() {
    let harness = TestFs::new();
    let fs = &harness;
    let temp = fs.temp_dir();
    let parent = &temp;
    let _parent = parent;
    let dir = parent.join("test");
    fs.create_dir(&dir).unwrap();
    let path = dir.join("test.txt");
    write_file(fs, &path, "test text").unwrap();

    let dotdot = parent.join("test/test.txt/../test.txt");
    let result = fs.canonicalize(&dotdot);
    assert!(result.is_err());
}

#[test]
fn mode_returns_permissions() {
    let harness = TestFs::new();
    let fs = &harness;
    let temp = fs.temp_dir();
    let parent = &temp;
    let _parent = parent;
    let path = parent.join("file");

    create_file(fs, &path, "").unwrap();
    set_mode(fs, &path, 0o644).unwrap();

    let result = mode(fs, &path);

    assert!(result.is_ok());
    assert_eq!(result.unwrap() % 0o100_000, 0o644);

    set_mode(fs, &path, 0o600).unwrap();

    let result = mode(fs, &path);

    assert!(result.is_ok());
    assert_eq!(result.unwrap() % 0o100_000, 0o600);

    set_readonly(fs, &path, true).unwrap();

    let result = mode(fs, &path);

    assert!(result.is_ok());
    assert_eq!(result.unwrap() % 0o100_000, 0o400);
}

#[test]
fn mode_fails_if_node_does_not_exist() {
    let harness = TestFs::new();
    let fs = &harness;
    let temp = fs.temp_dir();
    let parent = &temp;
    let _parent = parent;
    let result = mode(fs, parent.join("does_not_exist"));

    assert!(result.is_err());
    assert_eq!(result.unwrap_err().kind(), ErrorKind::NotFound);
}

#[test]
fn set_mode_sets_permissions() {
    let harness = TestFs::new();
    let fs = &harness;
    let temp = fs.temp_dir();
    let parent = &temp;
    let _parent = parent;
    let path = parent.join("file");

    create_file(fs, &path, "").unwrap();

    let result = set_mode(fs, &path, 0o000);

    assert!(result.is_ok());

    let readonly_result = readonly(fs, &path);

    assert!(readonly_result.is_ok());
    assert!(readonly_result.unwrap());

    let read_result = read_file(fs, &path);
    let write_result = write_file(fs, &path, "should not be allowed");

    assert!(read_result.is_err());
    assert!(write_result.is_err());
    assert_eq!(read_result.unwrap_err().kind(), ErrorKind::PermissionDenied);
    assert_eq!(
        write_result.unwrap_err().kind(),
        ErrorKind::PermissionDenied
    );

    let result = set_mode(fs, &path, 0o200);

    assert!(result.is_ok());

    let read_result = read_file(fs, &path);
    let write_result = write_file(fs, &path, "should be allowed");

    assert!(read_result.is_err());
    assert!(write_result.is_ok());
    assert_eq!(read_result.unwrap_err().kind(), ErrorKind::PermissionDenied);

    let readonly_result = readonly(fs, &path);

    assert!(readonly_result.is_ok());
    assert!(!readonly_result.unwrap());

    let result = set_mode(fs, &path, 0o644);

    assert!(result.is_ok());

    let readonly_result = readonly(fs, &path);

    assert!(readonly_result.is_ok());
    assert!(!readonly_result.unwrap());
}

#[test]
fn set_mode_fails_if_node_does_not_exist() {
    let harness = TestFs::new();
    let fs = &harness;
    let temp = fs.temp_dir();
    let parent = &temp;
    let _parent = parent;
    let result = set_mode(fs, parent.join("does_not_exist"), 0o644);

    assert!(result.is_err());
    assert_eq!(result.unwrap_err().kind(), ErrorKind::NotFound);
}
