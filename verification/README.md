# nfs

A verified core for keeping a host's network mounts (NFS, SMB/CIFS) alive, written in
[Verus](https://github.com/verus-lang/verus).

* `src/` is the library. It reads mount tables, fstab and export tables, checks and renders nfs
  mount options, decides which mounts to release, drains stacked mountpoints, and runs the recovery
  of missing and stale mounts step by step. Every function states what it returns, and the promises
  that span several functions are proved as `law_*` proof functions.
* `app/` is the storage plugin around it: it reads the host's files, runs `mount`, `umount` and
  `systemctl`, and hands the answers to the library.
* `tests/` runs the library on concrete tables, options and recoveries.

## What is guaranteed

* A mount that declares neither `hard` nor `soft` is rendered with a soft, fast-failing set of
  options; an explicit `hard` is left untouched. A rendered option string renders to itself.
* A release drains a mountpoint until the mount table no longer lists it, within a bound.
* A recovery releases only mounts that probed stale and that `/etc/fstab` declares. Everything else
  that is stale is left alone and reported.
* A recovery that reports nothing to do found nothing missing and nothing stale.
