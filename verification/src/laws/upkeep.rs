//! What the operations keep, gathered for their contracts.

use vstd::prelude::*;
use crate::error::ErrorView;
use crate::laws::make::{law_make_healthy, law_make_sound};
use crate::laws::meta::{law_make_regular, law_remove_regular, law_write_regular};
use crate::laws::remove::{law_remove_healthy, law_remove_sound};
use crate::laws::write::{law_read_after_write, law_write_healthy, law_write_sound};
use crate::model::image::ImageView;

verus! {

impl ImageView {
    /// What creating a file keeps.
    pub proof fn lemma_create_upkeep(self, path: Seq<char>)
        ensures
            ({
                let (img, r) = self.create(path);
                &&& self.sound() ==> img.sound() && img.in_range()
                &&& self.regular() ==> img.regular()
                &&& self.healthy() && r is Ok ==> img.healthy()
            }),
    {
        if self.sound() {
            let (img, r) = self.create(path);
            law_make_sound(self, path);
            img.lemma_sound_in_range();
            if self.regular() {
                law_make_regular(self, path);
            }
            if self.healthy() {
                law_make_healthy(self, path);
            }
        }
    }

    /// What creating a directory keeps.
    pub proof fn lemma_mkdir_upkeep(self, path: Seq<char>)
        ensures
            ({
                let (img, r) = self.mkdir(path);
                &&& self.sound() ==> img.sound() && img.in_range()
                &&& self.regular() ==> img.regular()
                &&& self.healthy() && r is Ok ==> img.healthy()
            }),
    {
        if self.sound() {
            let (img, r) = self.mkdir(path);
            law_make_sound(self, path);
            img.lemma_sound_in_range();
            if self.regular() {
                law_make_regular(self, path);
            }
            if self.healthy() {
                law_make_healthy(self, path);
            }
        }
    }

    /// What writing a file keeps.
    pub proof fn lemma_write_upkeep(self, path: Seq<char>, data: Seq<u8>)
        ensures
            ({
                let (img, r) = self.write(path, data);
                &&& self.sound() ==> img.sound() && img.in_range()
                &&& self.regular() ==> img.regular()
                &&& self.healthy() ==> img.healthy()
                &&& self.clean() ==> img.clean()
                &&& (self.sound() || self.clean()) && r is Ok ==> img.read(path) == Ok::<
                    Seq<u8>,
                    ErrorView,
                >(data)
            }),
    {
        let (img, r) = self.write(path, data);
        if self.clean() {
            self.lemma_clean_orderly();
            self.lemma_write_clean(path, data);
        }
        if self.sound() {
            self.lemma_sound_orderly();
            law_write_sound(self, path, data);
            img.lemma_sound_in_range();
            if self.regular() {
                law_write_regular(self, path, data);
            }
            if self.healthy() {
                law_write_healthy(self, path, data);
            }
        }
        if (self.sound() || self.clean()) && r is Ok {
            law_read_after_write(self, path, data);
        }
    }

    /// In an image whose tables agree, each step of storing stays inside the
    /// image.
    pub proof fn lemma_store_readable(self, path: Seq<char>)
        requires
            self.sound(),
        ensures
            self.store_readable(path),
    {
        self.lemma_sound_in_range();
        self.lemma_create_upkeep(path);
    }

    /// What storing a file keeps.
    pub proof fn lemma_store_upkeep(self, path: Seq<char>, data: Seq<u8>)
        ensures
            ({
                let (img, r) = self.store(path, data);
                &&& self.sound() ==> img.sound() && img.in_range()
                &&& self.regular() ==> img.regular()
                &&& self.healthy() && r is Ok ==> img.healthy()
                &&& self.sound() && r is Ok ==> img.read(path) == Ok::<Seq<u8>, ErrorView>(data)
            }),
    {
        self.lemma_write_upkeep(path, data);
        self.lemma_create_upkeep(path);
        self.create(path).0.lemma_write_upkeep(path, data);
    }

    /// What removing a file or a directory keeps.
    pub proof fn lemma_remove_upkeep(self, path: Seq<char>)
        ensures
            self.sound() ==> {
                &&& self.unlink(path).0.sound() && self.unlink(path).0.in_range()
                &&& self.rmdir(path).0.sound() && self.rmdir(path).0.in_range()
            },
            self.regular() ==> {
                &&& self.unlink(path).0.regular()
                &&& self.rmdir(path).0.regular()
            },
            self.healthy() ==> {
                &&& self.unlink(path).0.healthy()
                &&& self.rmdir(path).0.healthy()
            },
    {
        if self.sound() {
            law_remove_sound(self, path);
            self.unlink(path).0.lemma_sound_in_range();
            self.rmdir(path).0.lemma_sound_in_range();
            if self.regular() {
                law_remove_regular(self, path);
            }
            if self.healthy() {
                law_remove_healthy(self, path);
            }
        }
    }
}

} // verus!
