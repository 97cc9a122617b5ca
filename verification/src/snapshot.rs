//! A versioned balance map: every write is recorded against the current
//! step version, so the value a key held as of any past version can be read
//! back without storing full snapshots at every change.

use vstd::prelude::*;
use crate::omap::OMap;
use crate::bytes::copy_bytes;

verus! {

/// One recorded change: the value the key took at this version.
#[derive(Clone, Copy, PartialEq, Eq, Structural, Debug)]
pub struct VersionedValue {
    pub version: u64,
    pub value: u128,
}

/// A map from byte-string keys to `u128` balances that remembers, per key,
/// the history of values indexed by a monotonically increasing step version.
/// A key never written reads as zero at every version.
pub struct SnapshotMap {
    pub version: u64,
    pub logs: OMap<Vec<VersionedValue>>,
}

impl SnapshotMap {
    /// The value a changelog gives as of version `v`: the value set by the
    /// last change at a version at most `v`, or zero before any change.
    pub open spec fn log_at(log: Seq<VersionedValue>, v: u64) -> u128
        decreases log.len(),
    {
        if log.len() == 0 {
            0
        } else if log.last().version <= v {
            log.last().value
        } else {
            Self::log_at(log.drop_last(), v)
        }
    }

    /// A changelog is non-empty, its versions ascend strictly, and none of
    /// them lies beyond the map's current version.
    pub open spec fn log_wf(log: Seq<VersionedValue>, ver: u64) -> bool {
        &&& log.len() > 0
        &&& forall|i: int, j: int| 0 <= i < j < log.len() ==> log[i].version < log[j].version
        &&& forall|i: int| 0 <= i < log.len() ==> log[i].version <= ver
    }

    pub open spec fn wf(self) -> bool {
        &&& self.logs.wf()
        &&& forall|k: Seq<u8>|
            #[trigger] self.logs.spec_get(k) matches Some(log) ==> Self::log_wf(
                log@,
                self.version,
            )
    }

    /// The value of `key` as of version `v`.
    pub open spec fn spec_value_at(self, k: Seq<u8>, v: u64) -> u128 {
        match self.logs.spec_get(k) {
            Some(log) => Self::log_at(log@, v),
            None => 0,
        }
    }

    /// The current value of `key`.
    pub open spec fn spec_value(self, k: Seq<u8>) -> u128 {
        self.spec_value_at(k, u64::MAX)
    }

    pub fn new() -> (r: Self)
        ensures
            r.wf(),
            r.version == 0,
            forall|k: Seq<u8>, v: u64| r.spec_value_at(k, v) == 0,
    {
        SnapshotMap { version: 0, logs: OMap::new() }
    }

    /// Advances the step version; the execution environment calls this once
    /// per atomic step, before the step's writes.
    pub fn advance_version(&mut self, version: u64)
        requires
            old(self).wf(),
            version >= old(self).version,
        ensures
            final(self).wf(),
            final(self).version == version,
            final(self).logs == old(self).logs,
    {
        self.version = version;
    }

    /// Records `value` for `key` at the current version. Values as of any
    /// version from the current one on read back as `value`; strictly older
    /// versions keep their history; other keys are untouched.
    pub fn write(&mut self, key: &Vec<u8>, value: u128)
        requires
            old(self).wf(),
        ensures
            final(self).wf(),
            final(self).version == old(self).version,
            forall|v: u64|
                final(self).spec_value_at(key@, v) == if v >= old(self).version {
                    value
                } else {
                    old(self).spec_value_at(key@, v)
                },
            forall|k2: Seq<u8>, v: u64|
                k2 != key@ ==> final(self).spec_value_at(k2, v) == old(self).spec_value_at(k2, v),
    {
        let ghost m0 = *self;
        let ghost ver = self.version;
        let cur = self.logs.remove(key);
        match cur {
            None => {
                if value != 0 {
                    let mut log: Vec<VersionedValue> = Vec::new();
                    log.push(VersionedValue { version: self.version, value });
                    let ghost lv = log@;
                    let k = copy_bytes(key);
                    self.logs.insert(k, log);
                    proof {
                        assert(Self::log_wf(lv, ver));
                        assert forall|v: u64|
                            self.spec_value_at(key@, v) == if v >= ver {
                                value
                            } else {
                                m0.spec_value_at(key@, v)
                            } by {
                            if v < ver {
                                assert(lv.drop_last() =~= Seq::<VersionedValue>::empty());
                                assert(Self::log_at(lv, v) == Self::log_at(lv.drop_last(), v));
                                assert(Self::log_at(Seq::<VersionedValue>::empty(), v) == 0);
                            }
                        }
                    }
                } else {
                    proof {
                        assert(self.logs.spec_get(key@) is None);
                    }
                }
            },
            Some(log_in) => {
                proof {
                    assert(m0.logs.spec_get(key@) == Some(log_in));
                    assert(Self::log_wf(log_in@, ver));
                }
                let ghost l0 = log_in@;
                let mut log = log_in;
                let last = log[log.len() - 1];
                if last.value == value {
                    let k = copy_bytes(key);
                    self.logs.insert(k, log);
                    proof {
                        assert(Self::log_wf(l0, ver));
                        assert forall|v: u64|
                            self.spec_value_at(key@, v) == if v >= ver {
                                value
                            } else {
                                m0.spec_value_at(key@, v)
                            } by {
                            if v >= ver {
                                assert(l0.last().version <= ver);
                            }
                        }
                    }
                } else if last.version == self.version {
                    let n = log.len();
                    log[n - 1] = VersionedValue { version: last.version, value };
                    let ghost lv = log@;
                    proof {
                        assert(lv.drop_last() =~= l0.drop_last());
                    }
                    let k = copy_bytes(key);
                    self.logs.insert(k, log);
                    proof {
                        assert(Self::log_wf(lv, ver)) by {
                            assert(forall|i: int|
                                0 <= i < lv.len() ==> lv[i].version == l0[i].version);
                        }
                        assert forall|v: u64|
                            self.spec_value_at(key@, v) == if v >= ver {
                                value
                            } else {
                                m0.spec_value_at(key@, v)
                            } by {
                            assert(lv.last().version == ver && lv.last().value == value);
                            assert(l0.last() == last);
                            if v < ver {
                                assert(Self::log_at(lv, v) == Self::log_at(lv.drop_last(), v));
                                assert(Self::log_at(l0, v) == Self::log_at(l0.drop_last(), v));
                            }
                        }
                    }
                } else {
                    log.push(VersionedValue { version: self.version, value });
                    let ghost lv = log@;
                    proof {
                        assert(lv.drop_last() =~= l0);
                    }
                    let k = copy_bytes(key);
                    self.logs.insert(k, log);
                    proof {
                        assert(l0.last() == last);
                        assert(Self::log_wf(lv, ver)) by {
                            assert(last.version < ver);
                            assert forall|i: int, j: int| 0 <= i < j < lv.len() implies lv[i].version
                                < lv[j].version by {
                                if j == lv.len() - 1 {
                                    if i < l0.len() - 1 {
                                        assert(l0[i].version < l0[l0.len() - 1].version);
                                    }
                                }
                            }
                        }
                        assert forall|v: u64|
                            self.spec_value_at(key@, v) == if v >= ver {
                                value
                            } else {
                                m0.spec_value_at(key@, v)
                            } by {
                            if v < ver {
                                assert(Self::log_at(lv, v) == Self::log_at(l0, v));
                            }
                        }
                    }
                }
            },
        }
        proof {
            assert forall|k2: Seq<u8>| (#[trigger] self.logs.spec_get(k2)) is Some implies Self::log_wf(
                (self.logs.spec_get(k2))->Some_0@,
                self.version,
            ) by {
                if k2 != key@ {
                    assert(self.logs.spec_get(k2) == m0.logs.spec_get(k2));
                }
            }
            assert(self.wf());
        }
    }

    /// The value of `key` as of version `version`.
    pub fn read_at(&self, key: &Vec<u8>, version: u64) -> (r: u128)
        requires
            self.wf(),
        ensures
            r == self.spec_value_at(key@, version),
    {
        match self.logs.get(key) {
            None => 0,
            Some(log) => {
                let mut i: usize = log.len();
                proof {
                    assert(log@.take(i as int) =~= log@);
                }
                while i > 0
                    invariant
                        self.wf(),
                        self.logs.spec_get(key@) == Some(*log),
                        i <= log@.len(),
                        Self::log_at(log@, version) == Self::log_at(log@.take(i as int), version),
                    decreases i,
                {
                    let e = log[i - 1];
                    proof {
                        assert(log@.take(i as int).last() == log@[i - 1]);
                    }
                    if e.version <= version {
                        return e.value;
                    }
                    proof {
                        assert(log@.take(i as int).drop_last() =~= log@.take(i - 1));
                    }
                    i = i - 1;
                }
                proof {
                    assert(log@.take(0) =~= Seq::<VersionedValue>::empty());
                }
                0
            },
        }
    }

    /// The current value of `key`.
    pub fn read(&self, key: &Vec<u8>) -> (r: u128)
        requires
            self.wf(),
        ensures
            r == self.spec_value(key@),
    {
        self.read_at(key, u64::MAX)
    }
}

} // verus!
